//! Palettes as written, with their ancestors, and the resolution of each into one
//! table of colors.
use vstd::prelude::*;
use crate::error::{Error, ErrorView};
use crate::table::{listed, names_of, same_text, NameMap};
use vstd::string::StrSliceExecFns;

verus! {

/// Color names and the color text that each stands for.
pub type Palette = NameMap<String>;

/// Palettes as written, by name.
pub type PalettesBase = NameMap<PaletteBase>;

/// Resolved palettes, by name.
pub type Palettes = NameMap<Palette>;

/// A palette as written: the palettes it inherits from, nearest first, and its own colors.
#[derive(Debug)]
pub struct PaletteBase {
    pub inherits: Vec<String>,
    pub colors: Palette,
}

/// The text of the color named `k` in `p`.
pub open spec fn color_of(p: Palette, k: Seq<char>) -> Option<Seq<char>> {
    match p.lookup(k) {
        Some(v) => Some(v@),
        None => None,
    }
}

/// The ancestors met in a depth-first walk, in preorder, through `list` from place `i` on:
/// `list` belongs to the palette `owner`, `path` holds the palettes being walked and `seen`
/// the ancestors met so far. A name on `path` met again is a cycle. (`path` holds the
/// palette resolved and then distinct known palettes, so it never grows longer than the
/// palettes are many, plus one: that bound ends the walk.)
pub open spec fn walk(
    pals: PalettesBase,
    owner: Seq<char>,
    list: Seq<Seq<char>>,
    i: int,
    path: Seq<Seq<char>>,
    seen: Seq<Seq<char>>,
) -> Result<Seq<Seq<char>>, ErrorView>
    decreases pals.entries@.len() + 1 - path.len(), list.len() - i,
{
    if i < 0 || i >= list.len() {
        Ok(seen)
    } else {
        let n = list[i];
        match pals.lookup(n) {
            None => Err(ErrorView::NoInherit(n, owner)),
            Some(pb) => if path.contains(n) || path.len() > pals.entries@.len() {
                Err(ErrorView::InheritanceCycle(n))
            } else if seen.contains(n) {
                walk(pals, owner, list, i + 1, path, seen)
            } else {
                match walk(pals, n, names_of(pb.inherits@), 0, path.push(n), seen.push(n)) {
                    Err(e) => Err(e),
                    Ok(after) => walk(pals, owner, list, i + 1, path, after),
                }
            },
        }
    }
}

/// All the ancestors of palette `p`, named `name`, in depth-first preorder, each once.
pub open spec fn ancestors(p: PaletteBase, name: Seq<char>, pals: PalettesBase) -> Result<
    Seq<Seq<char>>,
    ErrorView,
> {
    walk(pals, name, names_of(p.inherits@), 0, seq![name], seq![])
}

/// The first of `anc` that is not a known palette.
pub open spec fn first_missing(anc: Seq<Seq<char>>, pals: PalettesBase) -> Option<Seq<char>>
    decreases anc.len(),
{
    if anc.len() == 0 {
        None
    } else if pals.lookup(anc[0]) is None {
        Some(anc[0])
    } else {
        first_missing(anc.drop_first(), pals)
    }
}

/// The color named `k` in the first of `anc` that has one.
pub open spec fn first_color(anc: Seq<Seq<char>>, pals: PalettesBase, k: Seq<char>) -> Option<
    Seq<char>,
>
    decreases anc.len(),
{
    if anc.len() == 0 {
        None
    } else {
        match pals.lookup(anc[0]) {
            Some(pb) if color_of(pb.colors, k) is Some => color_of(pb.colors, k),
            _ => first_color(anc.drop_first(), pals, k),
        }
    }
}

/// The color named `k` once `local` has taken in the colors of `anc`: its own if it has
/// one, else that of the first ancestor that has one.
pub open spec fn resolved(local: Palette, anc: Seq<Seq<char>>, pals: PalettesBase, k: Seq<char>) -> Option<
    Seq<char>,
> {
    match color_of(local, k) {
        Some(c) => Some(c),
        None => first_color(anc, pals, k),
    }
}

/// A copy of `v`.
fn copy_names(v: &Vec<String>) -> (r: Vec<String>)
    ensures
        names_of(r@) == names_of(v@),
{
    let mut out: Vec<String> = Vec::new();
    let mut i: usize = 0;
    while i < v.len()
        invariant
            i <= v@.len(),
            out@.len() == i,
            forall|j: int| 0 <= j < i ==> (#[trigger] out@[j])@ == v@[j]@,
        decreases v@.len() - i,
    {
        out.push(v[i].clone());
        i = i + 1;
    }
    assert(names_of(out@) =~= names_of(v@));
    out
}

/// A copy of the palette `p`.
fn copy_palette(p: &Palette) -> (r: Palette)
    ensures
        forall|k: Seq<char>| #[trigger] color_of(r, k) == color_of(*p, k),
{
    let mut out: Palette = NameMap::new();
    let mut i: usize = 0;
    while i < p.entries.len()
        invariant
            i <= p.entries@.len(),
            out.entries@.len() == i,
            forall|j: int|
                0 <= j < i ==> (#[trigger] out.entries@[j]).0@ == p.entries@[j].0@
                    && out.entries@[j].1@ == p.entries@[j].1@,
        decreases p.entries@.len() - i,
    {
        let (k, v) = &p.entries[i];
        out.entries.push((k.clone(), v.clone()));
        i = i + 1;
    }
    proof {
        assert forall|k: Seq<char>| #[trigger] color_of(out, k) == color_of(*p, k) by {
            lemma_same_keys(out.entries@, p.entries@, k);
            crate::table::lemma_key_index(out.entries@, k);
            if let Some(j) = crate::table::key_index(out.entries@, k) {
                assert(out.entries@[j].1@ == p.entries@[j].1@);
            }
        }
    }
    out
}

proof fn lemma_same_keys(a: Seq<(String, String)>, b: Seq<(String, String)>, k: Seq<char>)
    requires
        a.len() == b.len(),
        forall|j: int| 0 <= j < a.len() ==> (#[trigger] a[j]).0@ == b[j].0@ && a[j].1@ == b[j].1@,
    ensures
        crate::table::key_index(a, k) == crate::table::key_index(b, k),
    decreases a.len(),
{
    if a.len() > 0 {
        assert(a[0].0@ == b[0].0@);
        lemma_same_keys(a.drop_first(), b.drop_first(), k);
        assert forall|j: int| 0 <= j < a.len() - 1 implies (#[trigger] a.drop_first()[j]).0@
            == b.drop_first()[j].0@ && a.drop_first()[j].1@ == b.drop_first()[j].1@ by {
            assert(a.drop_first()[j] == a[j + 1]);
            assert(b.drop_first()[j] == b[j + 1]);
        }
    }
}

/// Walks `list`, the ancestors that `owner` names, adding to `seen` each ancestor met for
/// the first time, in depth-first preorder.
fn walk_list(
    pals: &PalettesBase,
    owner: &str,
    list: &Vec<String>,
    path: &mut Vec<String>,
    seen: &mut Vec<String>,
) -> (r: Result<(), Error>)
    requires
        old(path)@.len() >= 1,
        names_of(old(path)@).no_duplicates(),
        forall|i: int| 1 <= i < old(path)@.len() ==> pals.lookup(#[trigger] names_of(old(path)@)[i]) is Some,
    ensures
        final(path)@ == old(path)@,
        match walk(*pals, owner@, names_of(list@), 0, names_of(old(path)@), names_of(old(seen)@)) {
            Ok(a) => r is Ok && names_of(final(seen)@) == a,
            Err(e) => r matches Err(x) && x@ == e,
        },
    decreases pals.entries@.len() + 1 - old(path)@.len(),
{
    let ghost path0 = path@;
    let ghost seen0 = seen@;
    let ghost names = names_of(list@);
    let mut i: usize = 0;
    while i < list.len()
        invariant
            path0 == old(path)@,
            seen0 == old(seen)@,
            path@ == path0,
            path0.len() >= 1,
            names_of(path0).no_duplicates(),
            forall|i: int| 1 <= i < path0.len() ==> pals.lookup(#[trigger] names_of(path0)[i]) is Some,
            names == names_of(list@),
            i <= list@.len(),
            walk(*pals, owner@, names, 0, names_of(path0), names_of(seen0)) == walk(
                *pals,
                owner@,
                names,
                i as int,
                names_of(path0),
                names_of(seen@),
            ),
        decreases list@.len() - i,
    {
        let n = list[i].as_str();
        assert(names[i as int] == n@);
        match pals.get(n) {
            None => {
                return Err(Error::NoInherit(n.to_owned(), owner.to_owned()));
            },
            Some(pb) => {
                if listed(path, n) {
                    return Err(Error::InheritanceCycle(n.to_owned()));
                }
                proof {
                    let further = names_of(path0).drop_first().push(n@);
                    assert forall|a: int, b: int| 0 <= a < b < further.len() implies further[a] != further[b] by {
                        if b < further.len() - 1 {
                            assert(further[a] == names_of(path0)[a + 1]);
                            assert(further[b] == names_of(path0)[b + 1]);
                        } else {
                            assert(further[a] == names_of(path0)[a + 1]);
                        }
                    }
                    assert forall|j: int| 0 <= j < further.len() implies pals.lookup(#[trigger] further[j]) is Some by {
                        if j < further.len() - 1 {
                            assert(further[j] == names_of(path0)[j + 1]);
                        }
                    }
                    crate::table::lemma_distinct_names_fit(*pals, further);
                }
                if !listed(seen, n) {
                    let ghost seen_before = seen@;
                    seen.push(n.to_owned());
                    path.push(n.to_owned());
                    assert(names_of(seen@) =~= names_of(seen_before).push(n@));
                    assert(names_of(path@) =~= names_of(path0).push(n@));
                    assert forall|a: int, b: int| 0 <= a < b < names_of(path@).len() implies names_of(path@)[a] != names_of(path@)[b] by {
                        if b == names_of(path@).len() - 1 {
                            assert(names_of(path@)[a] == names_of(path0)[a]);
                        }
                    }
                    assert forall|j: int| 1 <= j < path@.len() implies pals.lookup(#[trigger] names_of(path@)[j]) is Some by {
                        if j < path@.len() - 1 {
                            assert(names_of(path@)[j] == names_of(path0)[j]);
                        }
                    }
                    let r = walk_list(pals, n, &pb.inherits, path, seen);
                    path.pop();
                    assert(path@ =~= path0);
                    match r {
                        Err(e) => {
                            return Err(e);
                        },
                        Ok(()) => {},
                    }
                }
            },
        }
        i = i + 1;
    }
    Ok(())
}

impl PaletteBase {
    /// All the ancestors of this palette, named `name`, in depth-first preorder, each once.
    /// An ancestor that is not among `palettes` is an error, and so is a cycle.
    pub fn all_inherits(&self, name: &str, palettes: &PalettesBase) -> (r: Result<
        Vec<String>,
        Error,
    >)
        ensures
            match ancestors(*self, name@, *palettes) {
                Ok(a) => r matches Ok(v) && names_of(v@) == a,
                Err(e) => r matches Err(x) && x@ == e,
            },
    {
        let mut path: Vec<String> = Vec::new();
        path.push(name.to_owned());
        let mut seen: Vec<String> = Vec::new();
        assert(names_of(path@) =~= seq![name@]);
        assert(names_of(seen@) =~= seq![]);
        match walk_list(palettes, name, &self.inherits, &mut path, &mut seen) {
            Ok(()) => Ok(seen),
            Err(e) => Err(e),
        }
    }
}

proof fn lemma_first_color_push(anc: Seq<Seq<char>>, x: Seq<char>, pals: PalettesBase, k: Seq<char>)
    ensures
        first_color(anc.push(x), pals, k) == (match first_color(anc, pals, k) {
            Some(c) => Some(c),
            None => match pals.lookup(x) {
                Some(pb) => color_of(pb.colors, k),
                None => None,
            },
        }),
    decreases anc.len(),
{
    if anc.len() == 0 {
        assert(anc.push(x).drop_first() =~= seq![]);
    } else {
        assert(anc.push(x).drop_first() =~= anc.drop_first().push(x));
        lemma_first_color_push(anc.drop_first(), x, pals, k);
    }
}

proof fn lemma_first_missing_push(anc: Seq<Seq<char>>, x: Seq<char>, pals: PalettesBase)
    requires
        first_missing(anc, pals) is None,
        pals.lookup(x) is Some,
    ensures
        first_missing(anc.push(x), pals) is None,
    decreases anc.len(),
{
    if anc.len() == 0 {
        let e: Seq<Seq<char>> = seq![];
        assert(anc.push(x)[0] == x);
        assert(anc.push(x).drop_first() =~= e);
        assert(first_missing(e, pals) is None);
    } else {
        assert(pals.lookup(anc[0]) is Some);
        assert(anc.push(x)[0] == anc[0]);
        assert(anc.push(x).drop_first() =~= anc.drop_first().push(x));
        lemma_first_missing_push(anc.drop_first(), x, pals);
    }
}

proof fn lemma_first_missing_at(anc: Seq<Seq<char>>, x: Seq<char>, pals: PalettesBase, rest: Seq<Seq<char>>)
    requires
        first_missing(anc, pals) is None,
        pals.lookup(x) is None,
    ensures
        first_missing(anc.push(x) + rest, pals) == Some(x),
    decreases anc.len(),
{
    if anc.len() == 0 {
        assert((anc.push(x) + rest)[0] == x);
    } else {
        assert((anc.push(x) + rest).drop_first() =~= anc.drop_first().push(x) + rest);
        lemma_first_missing_at(anc.drop_first(), x, pals, rest);
    }
}

proof fn lemma_key_index_take<V>(e: Seq<(String, V)>, j: int, k: Seq<char>)
    requires
        0 <= j < e.len(),
    ensures
        crate::table::key_index(e.take(j + 1), k) == (match crate::table::key_index(e.take(j), k) {
            Some(x) => Some(x),
            None => if e[j].0@ == k {
                Some(j)
            } else {
                None
            },
        }),
{
    let a = e.take(j);
    let b = e.take(j + 1);
    crate::table::lemma_key_index(a, k);
    crate::table::lemma_key_index(b, k);
    assert(forall|i: int| 0 <= i < j ==> a[i] == b[i]);
    match crate::table::key_index(a, k) {
        Some(x) => {
            assert(b[x] == a[x]);
            crate::table::lemma_key_index_at(b, k, x);
        },
        None => {
            if e[j].0@ == k {
                assert(b[j] == e[j]);
                crate::table::lemma_key_index_at(b, k, j);
            } else {
                assert(forall|i: int| 0 <= i < j + 1 ==> b[i].0@ != k) by {
                    assert(b[j] == e[j]);
                }
                crate::table::lemma_key_index_none(b, k);
            }
        },
    }
}

/// Adds to `colors` each color of `more` whose name it lacks.
fn take_in(colors: &mut Palette, more: &Palette)
    ensures
        forall|k: Seq<char>| #[trigger] color_of(*final(colors), k) == (match color_of(*old(colors), k) {
            Some(c) => Some(c),
            None => color_of(*more, k),
        }),
{
    let ghost before = *colors;
    let mut j: usize = 0;
    while j < more.entries.len()
        invariant
            j <= more.entries@.len(),
            forall|k: Seq<char>| #[trigger] color_of(*colors, k) == (match color_of(before, k) {
                Some(c) => Some(c),
                None => match crate::table::key_index(more.entries@.take(j as int), k) {
                    Some(x) => Some(more.entries@[x].1@),
                    None => None,
                },
            }),
        decreases more.entries@.len() - j,
    {
        let ghost mid = *colors;
        let (k, v) = &more.entries[j];
        let absent = !colors.contains(k.as_str());
        if absent {
            colors.insert(k.clone(), v.clone());
        }
        proof {
            assert forall|n: Seq<char>| #[trigger] color_of(*colors, n) == (match color_of(before, n) {
                Some(c) => Some(c),
                None => match crate::table::key_index(more.entries@.take(j + 1), n) {
                    Some(x) => Some(more.entries@[x].1@),
                    None => None,
                },
            }) by {
                lemma_key_index_take(more.entries@, j as int, n);
                crate::table::lemma_key_index(more.entries@.take(j as int), n);
                if let Some(x) = crate::table::key_index(more.entries@.take(j as int), n) {
                    assert(more.entries@.take(j as int)[x] == more.entries@[x]);
                }
                assert(color_of(mid, n) == (match color_of(before, n) {
                    Some(c) => Some(c),
                    None => match crate::table::key_index(more.entries@.take(j as int), n) {
                        Some(x) => Some(more.entries@[x].1@),
                        None => None,
                    },
                }));
                if absent {
                    if n == k@ {
                        assert(color_of(*colors, n) == Some(v@));
                    } else {
                        assert(color_of(*colors, n) == color_of(mid, n));
                    }
                } else {
                    assert(color_of(*colors, n) == color_of(mid, n));
                }
            }
        }
        j = j + 1;
    }
    proof {
        assert(more.entries@.take(j as int) =~= more.entries@);
    }
}

impl PaletteBase {
    /// This palette, named `name`, with the colors of its ancestors taken in: a color of its
    /// own stays, and among the ancestors the first in `all_inherits` order wins.
    pub fn parse(self, name: &str, palettes: &PalettesBase) -> (r: Result<Palette, Error>)
        ensures
            match ancestors(self, name@, *palettes) {
                Err(e) => r matches Err(x) && x@ == e,
                Ok(anc) => match first_missing(anc, *palettes) {
                    Some(m) => r matches Err(x) && x@ == ErrorView::NoPalette(m),
                    None => r matches Ok(p) && forall|k: Seq<char>|
                        #[trigger] color_of(p, k) == resolved(self.colors, anc, *palettes, k),
                },
            },
    {
        let inherits = match self.all_inherits(name, palettes) {
            Ok(v) => v,
            Err(e) => {
                return Err(e);
            },
        };
        let ghost anc = names_of(inherits@);
        let ghost outcome = ancestors(self, name@, *palettes);
        assert(outcome == Ok::<Seq<Seq<char>>, ErrorView>(anc));
        let ghost local = self.colors;
        let mut colors = self.colors;
        let mut i: usize = 0;
        assert(anc.take(0) =~= seq![]);
        while i < inherits.len()
            invariant
                outcome == ancestors(self, name@, *palettes),
                outcome == Ok::<Seq<Seq<char>>, ErrorView>(anc),
                anc == names_of(inherits@),
                i <= inherits@.len(),
                first_missing(anc.take(i as int), *palettes) is None,
                forall|k: Seq<char>| #[trigger] color_of(colors, k) == resolved(local, anc.take(i as int), *palettes, k),
            decreases inherits@.len() - i,
        {
            let n = inherits[i].as_str();
            assert(anc[i as int] == n@);
            assert(anc.take(i + 1) =~= anc.take(i as int).push(n@));
            let pb = match palettes.get(n) {
                Some(pb) => pb,
                None => {
                    proof {
                        lemma_first_missing_at(anc.take(i as int), n@, *palettes, anc.skip(i + 1));
                        assert(anc.take(i as int).push(n@) + anc.skip(i + 1) =~= anc);
                        assert(first_missing(anc, *palettes) == Some(n@));
                    }
                    return Err(Error::NoPalette(n.to_owned()));
                },
            };
            take_in(&mut colors, &pb.colors);
            proof {
                lemma_first_missing_push(anc.take(i as int), n@, *palettes);
                assert forall|k: Seq<char>| #[trigger] color_of(colors, k) == resolved(local, anc.take(i + 1), *palettes, k) by {
                    lemma_first_color_push(anc.take(i as int), n@, *palettes, k);
                }
            }
            i = i + 1;
        }
        assert(anc.take(i as int) =~= anc);
        Ok(colors)
    }
}

/// Whether two written palettes say the same: the same ancestors and the same colors.
pub open spec fn same_base(a: PaletteBase, b: PaletteBase) -> bool {
    names_of(a.inherits@) == names_of(b.inherits@) && forall|k: Seq<char>|
        #[trigger] color_of(a.colors, k) == color_of(b.colors, k)
}

/// A copy of the written palette `p`.
fn copy_base(p: &PaletteBase) -> (r: PaletteBase)
    ensures
        same_base(r, *p),
{
    PaletteBase { inherits: copy_names(&p.inherits), colors: copy_palette(&p.colors) }
}

/// Where a palette comes from: a file of its own, or the configuration itself.
#[derive(Debug)]
pub enum PaletteOrFile {
    File(String),
    Palette(PaletteBase),
}

/// Which palette files to load besides those the configuration names.
#[derive(Debug, Clone)]
pub enum AutoLoad {
    /// Every palette file in the configuration directory, or none.
    All(bool),
    /// These files.
    Specific(Vec<String>),
}

/// The written palette that `pf` stands for, where `files` holds the palettes read from
/// files, by path.
pub open spec fn written_base(pf: PaletteOrFile, files: PalettesBase) -> Option<PaletteBase> {
    match pf {
        PaletteOrFile::Palette(pb) => Some(pb),
        PaletteOrFile::File(path) => files.lookup(path@),
    }
}

/// The written palette that `pf` stands for.
fn base_of(pf: &PaletteOrFile, files: &PalettesBase) -> (r: Result<PaletteBase, Error>)
    ensures
        match written_base(*pf, *files) {
            Some(b) => r matches Ok(x) && same_base(x, b),
            None => r matches Err(e) && pf matches PaletteOrFile::File(path) && e@
                == ErrorView::NotFile(path@),
        },
{
    match pf {
        PaletteOrFile::Palette(pb) => Ok(copy_base(pb)),
        PaletteOrFile::File(path) => match files.get(path.as_str()) {
            Some(pb) => Ok(copy_base(pb)),
            None => Err(Error::NotFile(path.clone())),
        },
    }
}

impl PaletteOrFile {
    /// The palette as written: the one given inline, or the one read from its file, which
    /// `files` holds by path.
    pub fn parse(self, files: &PalettesBase) -> (r: Result<PaletteBase, Error>)
        ensures
            match written_base(self, *files) {
                Some(b) => r matches Ok(x) && same_base(x, b),
                None => r matches Err(e) && self matches PaletteOrFile::File(path) && e@
                    == ErrorView::NotFile(path@),
            },
    {
        match self {
            PaletteOrFile::Palette(pb) => {
                let r = copy_base(&pb);
                Ok(r)
            },
            PaletteOrFile::File(path) => match files.get(path.as_str()) {
                Some(pb) => Ok(copy_base(pb)),
                None => Err(Error::NotFile(path)),
            },
        }
    }
}

/// The configuration as written.
#[derive(Debug)]
pub struct ConfigBase {
    pub prefix: String,
    pub suffix: String,
    pub palette: String,
    pub autoload: AutoLoad,
    pub palettes: NameMap<PaletteOrFile>,
}

/// The configuration with every palette resolved.
#[derive(Debug)]
pub struct Config {
    pub prefix: String,
    pub suffix: String,
    pub palette: String,
    pub palettes: Palettes,
}

/// Whether `merged` holds, each under one name only, each palette that `declared` names,
/// as written there, and each of `autoloaded` whose name `declared` lacks.
pub open spec fn merged_from(
    declared: NameMap<PaletteOrFile>,
    autoloaded: PalettesBase,
    files: PalettesBase,
    merged: PalettesBase,
) -> bool {
    merged.names().no_duplicates() && forall|k: Seq<char>|
        match #[trigger] declared.lookup(k) {
            Some(pf) => written_base(pf, files) matches Some(b) && merged.lookup(k) matches Some(
                m,
            ) && same_base(m, b),
            None => match autoloaded.lookup(k) {
                Some(b) => merged.lookup(k) matches Some(m) && same_base(m, b),
                None => merged.lookup(k) is None,
            },
        }
}

/// Whether palette `p` is the resolution of the written palette named `name` in `bases`.
pub open spec fn resolution_of(p: Palette, name: Seq<char>, base: PaletteBase, bases: PalettesBase) -> bool {
    ancestors(base, name, bases) matches Ok(anc) && first_missing(anc, bases) is None && forall|
        k: Seq<char>,
    | #[trigger] color_of(p, k) == resolved(base.colors, anc, bases, k)
}

/// Whether resolving the written palette named `name` in `bases` fails with `e`.
pub open spec fn resolution_fails(e: ErrorView, name: Seq<char>, base: PaletteBase, bases: PalettesBase) -> bool {
    match ancestors(base, name, bases) {
        Err(x) => e == x,
        Ok(anc) => first_missing(anc, bases) matches Some(m) && e == ErrorView::NoPalette(m),
    }
}

/// Resolves every palette of `bases`, in order.
pub fn resolve_all(bases: &PalettesBase) -> (r: Result<Palettes, Error>)
    ensures
        r matches Ok(ps) ==> ps.entries@.len() == bases.entries@.len() && forall|i: int|
            0 <= i < ps.entries@.len() ==> (#[trigger] ps.entries@[i]).0@ == bases.entries@[i].0@
                && resolution_of(ps.entries@[i].1, bases.entries@[i].0@, bases.entries@[i].1, *bases),
        r matches Err(e) ==> exists|i: int|
            0 <= i < bases.entries@.len() && resolution_fails(e@, bases.entries@[i].0@, #[trigger] bases.entries@[i].1, *bases)
                && forall|j: int| 0 <= j < i ==> !resolution_fails_any(bases.entries@[j].0@, bases.entries@[j].1, *bases),
{
    let mut out: Palettes = NameMap::new();
    let mut i: usize = 0;
    while i < bases.entries.len()
        invariant
            i <= bases.entries@.len(),
            out.entries@.len() == i,
            forall|j: int|
                0 <= j < i ==> (#[trigger] out.entries@[j]).0@ == bases.entries@[j].0@
                    && resolution_of(out.entries@[j].1, bases.entries@[j].0@, bases.entries@[j].1, *bases),
        decreases bases.entries@.len() - i,
    {
        let (name, base) = &bases.entries[i];
        let copy = copy_base(base);
        proof {
            lemma_same_base_resolves(copy, *base, name@, *bases);
        }
        match copy.parse(name.as_str(), bases) {
            Ok(p) => {
                out.entries.push((name.clone(), p));
            },
            Err(e) => {
                proof {
                    assert forall|j: int| 0 <= j < i implies !resolution_fails_any(bases.entries@[j].0@, bases.entries@[j].1, *bases) by {
                        assert(out.entries@[j].0@ == bases.entries@[j].0@);
                    }
                    assert(resolution_fails(e@, bases.entries@[i as int].0@, bases.entries@[i as int].1, *bases));
                }
                return Err(e);
            },
        }
        i = i + 1;
    }
    Ok(out)
}

/// Whether resolving the written palette named `name` in `bases` fails.
pub open spec fn resolution_fails_any(name: Seq<char>, base: PaletteBase, bases: PalettesBase) -> bool {
    match ancestors(base, name, bases) {
        Err(_) => true,
        Ok(anc) => first_missing(anc, bases) is Some,
    }
}

/// Written palettes that say the same resolve alike.
proof fn lemma_same_base_resolves(a: PaletteBase, b: PaletteBase, name: Seq<char>, bases: PalettesBase)
    requires
        same_base(a, b),
    ensures
        ancestors(a, name, bases) == ancestors(b, name, bases),
        forall|anc: Seq<Seq<char>>, k: Seq<char>| #[trigger] resolved(a.colors, anc, bases, k) == resolved(b.colors, anc, bases, k),
{
    assert forall|anc: Seq<Seq<char>>, k: Seq<char>| #[trigger] resolved(a.colors, anc, bases, k) == resolved(b.colors, anc, bases, k) by {
        assert(color_of(a.colors, k) == color_of(b.colors, k));
    }
}

/// Whether a palette that `declared` names is to come from a file that `files` lacks.
pub open spec fn file_missing(declared: NameMap<PaletteOrFile>, files: PalettesBase) -> bool {
    exists|k: Seq<char>|
        #[trigger] declared.lookup(k) matches Some(pf) && written_base(pf, files) is None
}

proof fn lemma_take_first<V>(e: Seq<(String, V)>, i: int, k: Seq<char>)
    requires
        0 <= i < e.len(),
        crate::table::key_index(e.take(i), k) is None,
        e[i].0@ == k,
    ensures
        crate::table::key_index(e, k) == Some(i),
{
    crate::table::lemma_key_index(e.take(i), k);
    assert forall|j: int| 0 <= j < i implies e[j].0@ != k by {
        assert(e.take(i)[j] == e[j]);
    }
    crate::table::lemma_key_index_at(e, k, i);
}

/// The written palettes of the configuration: those it declares, each read as written, and
/// those loaded besides whose names it does not declare.
fn merge_bases(declared: &NameMap<PaletteOrFile>, autoloaded: &PalettesBase, files: &PalettesBase) -> (r:
    Result<PalettesBase, Error>)
    ensures
        r is Err <==> file_missing(*declared, *files),
        r matches Ok(m) ==> merged_from(*declared, *autoloaded, *files, m),
        r matches Err(e) ==> exists|k: Seq<char>|
            #[trigger] declared.lookup(k) matches Some(PaletteOrFile::File(path)) && files.lookup(
                path@,
            ) is None && e@ == ErrorView::NotFile(path@),
{
    let mut merged: PalettesBase = NameMap::new();
    assert(merged.names() =~= seq![]);
    let mut i: usize = 0;
    while i < declared.entries.len()
        invariant
            i <= declared.entries@.len(),
            merged.names().no_duplicates(),
            forall|k: Seq<char>|
                match #[trigger] crate::table::key_index(declared.entries@.take(i as int), k) {
                    Some(x) => written_base(declared.entries@[x].1, *files) matches Some(b)
                        && merged.lookup(k) matches Some(m) && same_base(m, b),
                    None => merged.lookup(k) is None,
                },
        decreases declared.entries@.len() - i,
    {
        let ghost mid = merged;
        let (k, pf) = &declared.entries[i];
        proof {
            crate::table::lemma_key_index(declared.entries@.take(i as int), k@);
        }
        if !merged.contains(k.as_str()) {
            match base_of(pf, files) {
                Ok(b) => {
                    merged.insert(k.clone(), b);
                },
                Err(e) => {
                    proof {
                        lemma_take_first(declared.entries@, i as int, k@);
                        assert(declared.lookup(k@) == Some(*pf));
                    }
                    return Err(e);
                },
            }
        }
        proof {
            assert forall|n: Seq<char>|
                match #[trigger] crate::table::key_index(declared.entries@.take(i + 1), n) {
                    Some(x) => written_base(declared.entries@[x].1, *files) matches Some(b)
                        && merged.lookup(n) matches Some(m) && same_base(m, b),
                    None => merged.lookup(n) is None,
                } by {
                lemma_key_index_take(declared.entries@, i as int, n);
                crate::table::lemma_key_index(declared.entries@.take(i as int), n);
                if let Some(x) = crate::table::key_index(declared.entries@.take(i as int), n) {
                    assert(declared.entries@.take(i as int)[x] == declared.entries@[x]);
                }
                assert(match crate::table::key_index(declared.entries@.take(i as int), n) {
                    Some(x) => written_base(declared.entries@[x].1, *files) matches Some(b)
                        && mid.lookup(n) matches Some(m) && same_base(m, b),
                    None => mid.lookup(n) is None,
                });
            }
        }
        i = i + 1;
    }
    assert(declared.entries@.take(i as int) =~= declared.entries@);
    let mut j: usize = 0;
    while j < autoloaded.entries.len()
        invariant
            declared.entries@.take(declared.entries@.len() as int) == declared.entries@,
            j <= autoloaded.entries@.len(),
            merged.names().no_duplicates(),
            forall|k: Seq<char>|
                match #[trigger] declared.lookup(k) {
                    Some(pf) => written_base(pf, *files) matches Some(b) && merged.lookup(k) matches Some(
                        m,
                    ) && same_base(m, b),
                    None => match crate::table::key_index(autoloaded.entries@.take(j as int), k) {
                        Some(x) => merged.lookup(k) matches Some(m) && same_base(
                            m,
                            autoloaded.entries@[x].1,
                        ),
                        None => merged.lookup(k) is None,
                    },
                },
        decreases autoloaded.entries@.len() - j,
    {
        let ghost mid = merged;
        let (k, b) = &autoloaded.entries[j];
        if !merged.contains(k.as_str()) {
            merged.insert(k.clone(), copy_base(b));
        }
        proof {
            assert forall|n: Seq<char>|
                match #[trigger] declared.lookup(n) {
                    Some(pf) => written_base(pf, *files) matches Some(bb) && merged.lookup(n) matches Some(
                        m,
                    ) && same_base(m, bb),
                    None => match crate::table::key_index(autoloaded.entries@.take(j + 1), n) {
                        Some(x) => merged.lookup(n) matches Some(m) && same_base(
                            m,
                            autoloaded.entries@[x].1,
                        ),
                        None => merged.lookup(n) is None,
                    },
                } by {
                lemma_key_index_take(autoloaded.entries@, j as int, n);
                crate::table::lemma_key_index(autoloaded.entries@.take(j as int), n);
                if let Some(x) = crate::table::key_index(autoloaded.entries@.take(j as int), n) {
                    assert(autoloaded.entries@.take(j as int)[x] == autoloaded.entries@[x]);
                }
                assert(match declared.lookup(n) {
                    Some(pf) => written_base(pf, *files) matches Some(bb) && mid.lookup(n) matches Some(
                        m,
                    ) && same_base(m, bb),
                    None => match crate::table::key_index(autoloaded.entries@.take(j as int), n) {
                        Some(x) => mid.lookup(n) matches Some(m) && same_base(
                            m,
                            autoloaded.entries@[x].1,
                        ),
                        None => mid.lookup(n) is None,
                    },
                });
            }
        }
        j = j + 1;
    }
    assert(autoloaded.entries@.take(j as int) =~= autoloaded.entries@);
    assert(!file_missing(*declared, *files)) by {
        assert forall|k: Seq<char>| !(#[trigger] declared.lookup(k) matches Some(pf) && written_base(pf, *files) is None) by {
            if let Some(pf) = declared.lookup(k) {
                assert(written_base(pf, *files) is Some);
            }
        }
    }
    Ok(merged)
}

impl ConfigBase {
    /// The configuration with every palette resolved. `autoloaded` holds the palettes loaded
    /// besides those declared, which yield to a declared palette of the same name; `files`
    /// holds, by path, the palettes that the configuration names by their files.
    pub fn parse(self, autoloaded: PalettesBase, files: &PalettesBase) -> (r: Result<Config, Error>)
        ensures
            file_missing(self.palettes, *files) ==> (r matches Err(e) && exists|k: Seq<char>|
                #[trigger] self.palettes.lookup(k) matches Some(PaletteOrFile::File(path))
                    && files.lookup(path@) is None && e@ == ErrorView::NotFile(path@)),
            r matches Ok(c) ==> c.prefix@ == self.prefix@ && c.suffix@ == self.suffix@
                && c.palette@ == self.palette@ && exists|m: PalettesBase|
                merged_from(self.palettes, autoloaded, *files, m) && c.palettes.entries@.len()
                    == m.entries@.len() && forall|i: int|
                    0 <= i < m.entries@.len() ==> (#[trigger] c.palettes.entries@[i]).0@
                        == m.entries@[i].0@ && resolution_of(
                        c.palettes.entries@[i].1,
                        m.entries@[i].0@,
                        m.entries@[i].1,
                        m,
                    ),
            r matches Err(e) ==> file_missing(self.palettes, *files) || exists|
                m: PalettesBase,
                i: int,
            |
                merged_from(self.palettes, autoloaded, *files, m) && 0 <= i < m.entries@.len()
                    && #[trigger] resolution_fails(e@, m.entries@[i].0@, m.entries@[i].1, m),
    {
        let merged = match merge_bases(&self.palettes, &autoloaded, files) {
            Ok(m) => m,
            Err(e) => {
                return Err(e);
            },
        };
        let palettes = match resolve_all(&merged) {
            Ok(ps) => ps,
            Err(e) => {
                return Err(e);
            },
        };
        Ok(Config { prefix: self.prefix, suffix: self.suffix, palette: self.palette, palettes })
    }
}

/// The palette that a file named `file_name` holds, if it is a palette file: its name ends
/// in `.toml` after a non-empty stem, and it is not the configuration file `config.toml`.
pub open spec fn autoload_name_of(file_name: Seq<char>) -> Option<Seq<char>> {
    let n = file_name.len();
    if n > 5 && file_name.skip(n - 5) == ".toml"@ && file_name != "config.toml"@ {
        Some(file_name.take(n - 5))
    } else {
        None
    }
}

/// The palette that a file named `file_name` holds, if it is a palette file.
pub fn autoload_name(file_name: &str) -> (r: Option<String>)
    ensures
        match autoload_name_of(file_name@) {
            Some(n) => r matches Some(x) && x@ == n,
            None => r is None,
        },
{
    let n = file_name.unicode_len();
    if n <= 5 {
        return None;
    }
    let ext = file_name.substring_char(n - 5, n);
    assert(ext@ == file_name@.skip(n - 5));
    if !same_text(ext, ".toml") || same_text(file_name, "config.toml") {
        return None;
    }
    let stem = file_name.substring_char(0, n - 5);
    Some(stem.to_owned())
}

} // verus!
