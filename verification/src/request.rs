//! What a request asks for, read from its bytes: which operation it names,
//! where its body lies, and which identifier it carries.

use vstd::prelude::*;

verus! {

/// The pattern stands in the text at position `at`.
pub open spec fn matches_at(text: Seq<u8>, at: int, pattern: Seq<u8>) -> bool {
    &&& 0 <= at
    &&& at + pattern.len() <= text.len()
    &&& text.subrange(at, at + pattern.len()) == pattern
}

/// `found` is the first position at or behind `from` at which the pattern
/// stands in the text, or `None` where it stands at none.
pub open spec fn is_first_match(
    text: Seq<u8>,
    from: int,
    pattern: Seq<u8>,
    found: Option<usize>,
) -> bool {
    match found {
        Some(at) => {
            &&& from <= at
            &&& matches_at(text, at as int, pattern)
            &&& forall|j: int| from <= j < at ==> !matches_at(text, j, pattern)
        },
        None => forall|j: int| from <= j ==> !matches_at(text, j, pattern),
    }
}

/// Whether the pattern stands in the text at position `at`.
pub fn stands_at(text: &[u8], at: usize, pattern: &[u8]) -> (same: bool)
    ensures
        same == matches_at(text@, at as int, pattern@),
{
    if at > text.len() || pattern.len() > text.len() - at {
        return false;
    }
    let mut i: usize = 0;
    while i < pattern.len()
        invariant
            i <= pattern.len(),
            at + pattern.len() <= text.len(),
            forall|j: int| 0 <= j < i ==> text[at + j] == pattern[j],
        decreases pattern.len() - i,
    {
        if text[at + i] != pattern[i] {
            proof {
                assert(text@.subrange(at as int, at + pattern.len())[i as int] == text[at + i]);
            }
            return false;
        }
        i += 1;
    }
    proof {
        assert(text@.subrange(at as int, at + pattern.len()) =~= pattern@);
    }
    true
}

/// The first position at or behind `from` at which the pattern stands in the
/// text.
pub fn find(text: &[u8], from: usize, pattern: &[u8]) -> (found: Option<usize>)
    ensures
        is_first_match(text@, from as int, pattern@, found),
{
    if from > text.len() {
        return None;
    }
    let mut at: usize = from;
    while at < text.len()
        invariant
            from <= at <= text.len(),
            forall|j: int| from <= j < at ==> !matches_at(text@, j, pattern@),
        decreases text.len() - at,
    {
        if stands_at(text, at, pattern) {
            return Some(at);
        }
        at += 1;
    }
    if stands_at(text, at, pattern) {
        Some(at)
    } else {
        None
    }
}

/// The bytes `[start, end)` of the text are its second piece when it is cut
/// at every place where the pattern stands, from the left and without
/// overlap: what lies between the first place and the next one behind it, or
/// the end of the text. There is none where the pattern stands nowhere.
pub open spec fn is_second_piece(text: Seq<u8>, pattern: Seq<u8>, piece: Option<(usize, usize)>) -> bool {
    match piece {
        None => is_first_match(text, 0, pattern, None),
        Some((start, end)) => {
            &&& start >= pattern.len()
            &&& is_first_match(text, 0, pattern, Some((start - pattern.len()) as usize))
            &&& start <= end <= text.len()
            &&& is_first_match(text, start as int, pattern, Some(end)) || (end == text.len()
                && is_first_match(text, start as int, pattern, None))
        },
    }
}

/// The second piece of the text when it is cut at the pattern, as the range
/// of its bytes.
pub fn second_piece(text: &[u8], pattern: &[u8]) -> (piece: Option<(usize, usize)>)
    ensures
        is_second_piece(text@, pattern@, piece),
{
    match find(text, 0, pattern) {
        None => None,
        Some(first) => {
            let total = text.len();
            proof {
                assert(first + pattern@.len() <= total);
            }
            let start = first + pattern.len();
            match find(text, start, pattern) {
                Some(next) => Some((start, next)),
                None => Some((start, text.len())),
            }
        },
    }
}

/// White space, as far as one byte can be.
pub open spec fn is_space(b: u8) -> bool {
    b == 32 || (9 <= b <= 13)
}

/// The bytes `[start, end)` are the first word in the bytes `[from, to)` of
/// the text: white space before it is passed over, and it ends before the
/// next white space or at `to`. Where there is no word, the range is empty.
pub open spec fn is_first_word(text: Seq<u8>, from: int, to: int, start: int, end: int) -> bool {
    &&& from <= start <= end <= to
    &&& forall|j: int| from <= j < start ==> is_space(text[j])
    &&& forall|j: int| start <= j < end ==> !is_space(text[j])
    &&& end < to ==> is_space(text[end])
    &&& start == end ==> start == to
}

/// Whether the byte is white space.
pub fn space(b: u8) -> (is: bool)
    ensures
        is == is_space(b),
{
    b == 32 || (9 <= b && b <= 13)
}

/// The first word in the bytes `[from, to)` of the text.
pub fn first_word(text: &[u8], from: usize, to: usize) -> (word: (usize, usize))
    requires
        from <= to <= text.len(),
    ensures
        is_first_word(text@, from as int, to as int, word.0 as int, word.1 as int),
{
    let mut start = from;
    while start < to && space(text[start])
        invariant
            from <= start <= to <= text.len(),
            forall|j: int| from <= j < start ==> is_space(text[j]),
        decreases to - start,
    {
        start += 1;
    }
    let mut end = start;
    while end < to && !space(text[end])
        invariant
            start <= end <= to <= text.len(),
            forall|j: int| start <= j < end ==> !is_space(text[j]),
        decreases to - end,
    {
        end += 1;
    }
    (start, end)
}

/// What a request asks for.
#[derive(PartialEq, Eq, Structural)]
pub enum Route {
    Insert,
    Get,
    Shutdown,
    NotFound,
}

/// `POST /insert`
pub open spec fn insert_prefix() -> Seq<u8> {
    seq![80u8, 79u8, 83u8, 84u8, 32u8, 47u8, 105u8, 110u8, 115u8, 101u8, 114u8, 116u8]
}

/// `GET /get`
pub open spec fn get_prefix() -> Seq<u8> {
    seq![71u8, 69u8, 84u8, 32u8, 47u8, 103u8, 101u8, 116u8]
}

/// `POST /shutdown`
pub open spec fn shutdown_prefix() -> Seq<u8> {
    seq![
        80u8,
        79u8,
        83u8,
        84u8,
        32u8,
        47u8,
        115u8,
        104u8,
        117u8,
        116u8,
        100u8,
        111u8,
        119u8,
        110u8,
    ]
}

/// The blank line that parts the head of a request from its body.
pub open spec fn body_mark() -> Seq<u8> {
    seq![13u8, 10u8, 13u8, 10u8]
}

/// `?id=`
pub open spec fn id_mark() -> Seq<u8> {
    seq![63u8, 105u8, 100u8, 61u8]
}

/// What the request asks for, by the words it begins with.
pub open spec fn route_for(request: Seq<u8>) -> Route {
    if matches_at(request, 0, insert_prefix()) {
        Route::Insert
    } else if matches_at(request, 0, get_prefix()) {
        Route::Get
    } else if matches_at(request, 0, shutdown_prefix()) {
        Route::Shutdown
    } else {
        Route::NotFound
    }
}

/// What the request asks for.
pub fn route_of(request: &[u8]) -> (route: Route)
    ensures
        route == route_for(request@),
{
    let insert: [u8; 12] = [80, 79, 83, 84, 32, 47, 105, 110, 115, 101, 114, 116];
    let get: [u8; 8] = [71, 69, 84, 32, 47, 103, 101, 116];
    let shutdown: [u8; 14] = [80, 79, 83, 84, 32, 47, 115, 104, 117, 116, 100, 111, 119, 110];
    proof {
        assert(insert@ =~= insert_prefix());
        assert(get@ =~= get_prefix());
        assert(shutdown@ =~= shutdown_prefix());
    }
    if stands_at(request, 0, insert.as_slice()) {
        Route::Insert
    } else if stands_at(request, 0, get.as_slice()) {
        Route::Get
    } else if stands_at(request, 0, shutdown.as_slice()) {
        Route::Shutdown
    } else {
        Route::NotFound
    }
}

/// The body of a request, as the range of its bytes: what lies behind the
/// first blank line, up to the next one if there is one. `None` where the
/// request has no blank line.
pub fn body_of(request: &[u8]) -> (body: Option<(usize, usize)>)
    ensures
        is_second_piece(request@, body_mark(), body),
{
    let mark: [u8; 4] = [13, 10, 13, 10];
    proof {
        assert(mark@ =~= body_mark());
    }
    second_piece(request, mark.as_slice())
}

/// The bytes `[start, end)` are the identifier of the request: the first
/// word behind the first `?id=`, looked for up to the next `?id=`.
pub open spec fn is_id(request: Seq<u8>, id: Option<(usize, usize)>) -> bool {
    match id {
        None => is_second_piece(request, id_mark(), None),
        Some((start, end)) => exists|from: usize, to: usize|
            {
                &&& #[trigger] is_second_piece(request, id_mark(), Some((from, to)))
                &&& is_first_word(request, from as int, to as int, start as int, end as int)
            },
    }
}

/// The identifier of a request, as the range of its bytes; an empty range
/// where nothing but white space follows the `?id=`. `None` where the request
/// has no `?id=`.
pub fn id_of(request: &[u8]) -> (id: Option<(usize, usize)>)
    ensures
        is_id(request@, id),
{
    let mark: [u8; 4] = [63, 105, 100, 61];
    proof {
        assert(mark@ =~= id_mark());
    }
    match second_piece(request, mark.as_slice()) {
        None => None,
        Some((from, to)) => {
            let word = first_word(request, from, to);
            proof {
                assert(is_second_piece(request@, id_mark(), Some((from, to))));
            }
            Some(word)
        },
    }
}

} // verus!
