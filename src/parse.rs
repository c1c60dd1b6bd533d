//! Filling a template: each marker, a color name and a format between a prefix and a
//! suffix, is replaced by that color of the palette written in that format.
use vstd::prelude::*;
use crate::color::{admits, convert_model, parse_format, Arithmetic, Outcome};
use crate::config::Palette;
use crate::error::{text_result, Error, ErrorView};
use crate::text::{chars_of, find, find_from, index_in, index_of, lemma_find_from_first, occurs_at};

verus! {

broadcast use vstd::string::group_string_axioms;

/// What the scan finds from an offset on.
pub enum Scan {
    /// No further prefix: the rest of the text stays as it is.
    Tail,
    /// A marker whose prefix starts at the first position and whose suffix at the second.
    Marker(int, int),
    /// A prefix at this position with no suffix after it.
    Unterminated(int),
}

/// The next marker in `src` at or after `offset`. The marker closes at the first suffix
/// after its prefix.
pub open spec fn scan_at(src: Seq<char>, prefix: Seq<char>, suffix: Seq<char>, offset: int) -> Scan {
    match find_from(src, prefix, offset) {
        None => Scan::Tail,
        Some(start) => match find_from(src, suffix, start + prefix.len()) {
            None => Scan::Unterminated(start),
            Some(close) => Scan::Marker(start, close),
        },
    }
}

/// The text between a marker's prefix and its suffix.
pub open spec fn body_of(src: Seq<char>, prefix: Seq<char>, start: int, close: int) -> Seq<char> {
    src.subrange(start + prefix.len(), close)
}

/// What replacing the marker with body `body` comes to.
pub open spec fn marker_outcome(body: Seq<char>, pal: Palette) -> Outcome {
    match index_of(body, ':') {
        None => Outcome::Exact(Err(ErrorView::FailedToParseValue(body))),
        Some(i) => match pal.lookup(body.take(i)) {
            None => Outcome::Exact(Err(ErrorView::FailedToGetColor(body))),
            Some(raw) => convert_model(raw@, body.skip(i + 1), pal),
        },
    }
}

/// `d` put in front of the text of `r`.
pub open spec fn prepend(d: Seq<char>, r: Option<Result<Seq<char>, ErrorView>>) -> Option<
    Result<Seq<char>, ErrorView>,
> {
    match r {
        Some(Ok(t)) => Some(Ok(d + t)),
        other => other,
    }
}

/// The result of filling `src` from `offset` on, where the markers' replacements, in order,
/// are `answers`; `None` where an answer is not one that its marker allows.
pub open spec fn fill(
    src: Seq<char>,
    prefix: Seq<char>,
    suffix: Seq<char>,
    pal: Palette,
    offset: int,
    answers: Seq<Result<Seq<char>, ErrorView>>,
) -> Option<Result<Seq<char>, ErrorView>>
    decreases src.len() - offset,
{
    if offset < 0 || offset > src.len() {
        None
    } else {
        match scan_at(src, prefix, suffix, offset) {
            Scan::Tail => Some(Ok(src.subrange(offset, src.len() as int))),
            Scan::Unterminated(start) => Some(
                Err(
                    ErrorView::FailedToFindSuffix(
                        #[verifier::truncate]
                        (vstd::utf8::encode_utf8(src.take(start)).len() as usize),
                    ),
                ),
            ),
            Scan::Marker(start, close) => {
                let next = close + suffix.len();
                if answers.len() == 0 || next <= offset || next > src.len() || !admits(
                    marker_outcome(body_of(src, prefix, start, close), pal),
                    answers[0],
                ) {
                    None
                } else {
                    match answers[0] {
                        Ok(t) => prepend(
                            src.subrange(offset, start) + t,
                            fill(src, prefix, suffix, pal, next, answers.drop_first()),
                        ),
                        Err(e) => Some(Err(e)),
                    }
                }
            },
        }
    }
}

/// A marker closes at the first suffix after its prefix, never at a later one: no suffix
/// starts between the end of the prefix and the close.
pub proof fn lemma_marker_closes_at_first_suffix(
    src: Seq<char>,
    prefix: Seq<char>,
    suffix: Seq<char>,
    offset: int,
)
    requires
        0 <= offset,
    ensures
        scan_at(src, prefix, suffix, offset) matches Scan::Marker(start, close) ==> offset <= start
            && start + prefix.len() <= close && occurs_at(src, prefix, start) && occurs_at(
            src,
            suffix,
            close,
        ) && forall|j: int| start + prefix.len() <= j < close ==> !occurs_at(src, suffix, j),
{
    lemma_find_from_first(src, prefix, offset);
    if let Some(start) = find_from(src, prefix, offset) {
        lemma_find_from_first(src, suffix, start + prefix.len());
    }
}

proof fn lemma_prepend_assoc(a: Seq<char>, b: Seq<char>, r: Option<Result<Seq<char>, ErrorView>>)
    ensures
        prepend(a, prepend(b, r)) == prepend(a + b, r),
{
    match r {
        Some(Ok(t)) => {
            assert(a + (b + t) =~= (a + b) + t);
        },
        _ => {},
    }
}

proof fn lemma_fill_tail(
    src: Seq<char>,
    prefix: Seq<char>,
    suffix: Seq<char>,
    pal: Palette,
    offset: int,
    fut: Seq<Result<Seq<char>, ErrorView>>,
)
    requires
        0 <= offset <= src.len(),
        find_from(src, prefix, offset) is None,
    ensures
        fill(src, prefix, suffix, pal, offset, fut) == Some(
            Ok::<Seq<char>, ErrorView>(src.subrange(offset, src.len() as int)),
        ),
{
}

proof fn lemma_fill_unterminated(
    src: Seq<char>,
    prefix: Seq<char>,
    suffix: Seq<char>,
    pal: Palette,
    offset: int,
    start: int,
    fut: Seq<Result<Seq<char>, ErrorView>>,
)
    requires
        0 <= offset <= src.len(),
        find_from(src, prefix, offset) == Some(start),
        find_from(src, suffix, start + prefix.len()) is None,
    ensures
        fill(src, prefix, suffix, pal, offset, fut) == Some(
            Err::<Seq<char>, ErrorView>(
                ErrorView::FailedToFindSuffix(
                    #[verifier::truncate]
                    (vstd::utf8::encode_utf8(src.take(start)).len() as usize),
                ),
            ),
        ),
{
}

proof fn lemma_fill_marker(
    src: Seq<char>,
    prefix: Seq<char>,
    suffix: Seq<char>,
    pal: Palette,
    offset: int,
    start: int,
    close: int,
    a: Result<Seq<char>, ErrorView>,
    fut: Seq<Result<Seq<char>, ErrorView>>,
)
    requires
        0 <= offset <= src.len(),
        suffix.len() > 0,
        find_from(src, prefix, offset) == Some(start),
        find_from(src, suffix, start + prefix.len()) == Some(close),
        offset <= start,
        start + prefix.len() <= close,
        close + suffix.len() <= src.len(),
        admits(marker_outcome(body_of(src, prefix, start, close), pal), a),
    ensures
        fill(src, prefix, suffix, pal, offset, seq![a] + fut) == (match a {
            Ok(t) => prepend(
                src.subrange(offset, start) + t,
                fill(src, prefix, suffix, pal, close + suffix.len(), fut),
            ),
            Err(e) => Some(Err::<Seq<char>, ErrorView>(e)),
        }),
{
    let more = seq![a] + fut;
    assert(more[0] == a);
    assert(more.drop_first() =~= fut);
}

/// The replacement of the marker whose body is `s[body_start..close]`.
fn replace_marker<A: Arithmetic>(
    src: &str,
    s: &Vec<char>,
    body_start: usize,
    close: usize,
    colors: &Palette,
    arith: &A,
) -> (r: Result<String, Error>)
    requires
        s@ == src@,
        body_start <= close <= s@.len(),
    ensures
        admits(marker_outcome(s@.subrange(body_start as int, close as int), *colors), text_result(r)),
{
    let ghost body = s@.subrange(body_start as int, close as int);
    proof {
        crate::text::lemma_index_of_bounds(body, ':');
    }
    match index_in(s, ':', body_start, close) {
        None => Err(Error::FailedToParseValue(src.substring_char(body_start, close).to_owned())),
        Some(colon) => {
            let name = src.substring_char(body_start, colon);
            assert(name@ =~= body.take(colon - body_start));
            match colors.get(name) {
                None => Err(Error::FailedToGetColor(src.substring_char(body_start, close).to_owned())),
                Some(raw) => {
                    let format = src.substring_char(colon + 1, close);
                    assert(format@ =~= body.skip(colon - body_start + 1));
                    parse_format(raw.as_str(), format, colors, arith)
                },
            }
        },
    }
}

/// Replaces each marker of `src`, a color name and a format parted by `:` between
/// `prefix` and `suffix`, with that color of `colors` written in that format. Text outside
/// the markers is copied as it is. The first failure ends the work.
pub fn replace_colors<A: Arithmetic>(
    src: &str,
    prefix: &str,
    suffix: &str,
    colors: &Palette,
    arith: &A,
) -> (r: Result<String, Error>)
    requires
        prefix@.len() > 0,
        suffix@.len() > 0,
    ensures
        exists|answers: Seq<Result<Seq<char>, ErrorView>>|
            fill(src@, prefix@, suffix@, *colors, 0, answers) == Some(text_result(r)),
{
    let s = chars_of(src);
    let p = chars_of(prefix);
    let q = chars_of(suffix);
    let mut dst = String::new();
    let mut offset: usize = 0;
    let ghost answers: Seq<Result<Seq<char>, ErrorView>> = seq![];
    assert forall|fut: Seq<Result<Seq<char>, ErrorView>>|
        fill(src@, prefix@, suffix@, *colors, 0, answers + fut) == prepend(
            dst@,
            fill(src@, prefix@, suffix@, *colors, offset as int, fut),
        ) by {
        assert(answers + fut =~= fut);
        let r = fill(src@, prefix@, suffix@, *colors, 0, fut);
        if let Some(Ok(t)) = r {
            assert(dst@ + t =~= t);
        }
    }
    loop
        invariant
            s@ == src@,
            p@ == prefix@,
            q@ == suffix@,
            p@.len() > 0,
            q@.len() > 0,
            offset <= s@.len(),
            forall|fut: Seq<Result<Seq<char>, ErrorView>>|
                fill(src@, prefix@, suffix@, *colors, 0, answers + fut) == prepend(
                    dst@,
                    #[trigger] fill(src@, prefix@, suffix@, *colors, offset as int, fut),
                ),
        decreases s@.len() - offset,
    {
        proof {
            lemma_find_from_first(s@, p@, offset as int);
        }
        let start = match find(&s, &p, offset) {
            Some(start) => {
                assert(crate::text::occurs_at(s@, p@, start as int));
                start
            },
            None => {
                let tail = src.substring_char(offset, s.len());
                let ghost old_dst = dst@;
                dst.append(tail);
                proof {
                    let none: Seq<Result<Seq<char>, ErrorView>> = seq![];
                    assert(answers + none =~= answers);
                    lemma_fill_tail(src@, prefix@, suffix@, *colors, offset as int, none);
                    assert(fill(src@, prefix@, suffix@, *colors, 0, answers + none) == prepend(
                        old_dst,
                        fill(src@, prefix@, suffix@, *colors, offset as int, none),
                    ));
                }
                return Ok(dst);
            },
        };
        proof {
            lemma_find_from_first(s@, q@, start + p@.len());
        }
        assert(start + p@.len() <= s@.len());
        assert(start + p.len() <= s.len());
        let body_start = start + p.len();
        let close = match find(&s, &q, body_start) {
            Some(close) => {
                assert(crate::text::occurs_at(s@, q@, close as int));
                close
            },
            None => {
                let before = src.substring_char(0, start);
                let e = Error::FailedToFindSuffix(before.len());
                proof {
                    let none: Seq<Result<Seq<char>, ErrorView>> = seq![];
                    assert(answers + none =~= answers);
                    assert(before@ == src@.take(start as int));
                    lemma_fill_unterminated(src@, prefix@, suffix@, *colors, offset as int, start as int, none);
                    assert(fill(src@, prefix@, suffix@, *colors, 0, answers + none) == prepend(
                        dst@,
                        fill(src@, prefix@, suffix@, *colors, offset as int, none),
                    ));
                }
                return Err(e);
            },
        };
        let ghost body = body_of(src@, prefix@, start as int, close as int);
        let ghost outcome = marker_outcome(body, *colors);
        assert(body == s@.subrange(body_start as int, close as int));
        assert(close + q@.len() <= s@.len());
        let piece = replace_marker(src, &s, body_start, close, colors, arith);
        let ghost a = text_result(piece);
        match piece {
            Err(e) => {
                proof {
                    let none: Seq<Result<Seq<char>, ErrorView>> = seq![];
                    let one = seq![a];
                    assert(one + none =~= one);
                    lemma_fill_marker(src@, prefix@, suffix@, *colors, offset as int, start as int, close as int, a, none);
                    assert(answers + one =~= answers.push(a));
                    assert(fill(src@, prefix@, suffix@, *colors, 0, answers + one) == prepend(
                        dst@,
                        fill(src@, prefix@, suffix@, *colors, offset as int, one),
                    ));
                    answers = answers.push(a);
                }
                return Err(e);
            },
            Ok(t) => {
                let gap = src.substring_char(offset, start);
                let ghost old_dst = dst@;
                dst.append(gap);
                dst.append(t.as_str());
                let next = close + q.len();
                proof {
                    let new_answers = answers.push(a);
                    assert forall|fut: Seq<Result<Seq<char>, ErrorView>>|
                        fill(src@, prefix@, suffix@, *colors, 0, new_answers + fut) == prepend(
                            dst@,
                            #[trigger] fill(src@, prefix@, suffix@, *colors, next as int, fut),
                        ) by {
                        let more = seq![a] + fut;
                        assert(new_answers + fut =~= answers + more);
                        lemma_fill_marker(src@, prefix@, suffix@, *colors, offset as int, start as int, close as int, a, fut);
                        assert(fill(src@, prefix@, suffix@, *colors, 0, answers + more) == prepend(
                            old_dst,
                            fill(src@, prefix@, suffix@, *colors, offset as int, more),
                        ));
                        lemma_prepend_assoc(
                            old_dst,
                            gap@ + t@,
                            fill(src@, prefix@, suffix@, *colors, next as int, fut),
                        );
                        assert(old_dst + (gap@ + t@) =~= dst@);
                    }
                    answers = new_answers;
                }
                offset = next;
            },
        }
    }
}

} // verus!
