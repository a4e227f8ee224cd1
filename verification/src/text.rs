//! Splitting and trimming of text.

use vstd::prelude::*;

verus! {

/// Whether the character is white space: one of the code points with the
/// Unicode property `White_Space`.
pub open spec fn is_white(c: char) -> bool {
    let n = c as u32;
    ||| 0x09 <= n <= 0x0D
    ||| n == 0x20
    ||| n == 0x85
    ||| n == 0xA0
    ||| n == 0x1680
    ||| 0x2000 <= n <= 0x200A
    ||| n == 0x2028
    ||| n == 0x2029
    ||| n == 0x202F
    ||| n == 0x205F
    ||| n == 0x3000
}

/// Whether the character is white space.
fn white(c: char) -> (b: bool)
    ensures
        b == is_white(c),
{
    let n: u32 = c as u32;
    (0x09 <= n && n <= 0x0D) || n == 0x20 || n == 0x85 || n == 0xA0 || n == 0x1680 || (0x2000 <= n
        && n <= 0x200A) || n == 0x2028 || n == 0x2029 || n == 0x202F || n == 0x205F || n == 0x3000
}

/// How many characters of white space the text begins with.
pub open spec fn leading_white(s: Seq<char>) -> nat
    decreases s.len(),
{
    if s.len() > 0 && is_white(s[0]) {
        1 + leading_white(s.skip(1))
    } else {
        0
    }
}

/// How many characters of white space the text ends with.
pub open spec fn trailing_white(s: Seq<char>) -> nat
    decreases s.len(),
{
    if s.len() > 0 && is_white(s.last()) {
        1 + trailing_white(s.drop_last())
    } else {
        0
    }
}

/// The text without the white space at its beginning and at its end.
pub open spec fn trimmed(s: Seq<char>) -> Seq<char> {
    let rest = s.skip(leading_white(s) as int);
    rest.take(rest.len() - trailing_white(rest))
}

/// The place of the first `c` in the text, its length if there is none.
pub open spec fn first_index(s: Seq<char>, c: char) -> nat
    decreases s.len(),
{
    if s.len() == 0 || s[0] == c {
        0
    } else {
        1 + first_index(s.skip(1), c)
    }
}

/// The pieces of the text between the separators `sep`.
pub open spec fn pieces(s: Seq<char>, sep: char) -> Seq<Seq<char>>
    decreases s.len(),
{
    let i = first_index(s, sep) as int;
    if i >= s.len() {
        seq![s]
    } else {
        seq![s.take(i)] + pieces(s.skip(i + 1), sep)
    }
}

/// Before its first place the character does not stand, and at it it does.
pub proof fn lemma_first_index(s: Seq<char>, c: char)
    ensures
        first_index(s, c) <= s.len(),
        forall|i: int| 0 <= i < first_index(s, c) ==> s[i] != c,
        first_index(s, c) < s.len() ==> s[first_index(s, c) as int] == c,
    decreases s.len(),
{
    if s.len() > 0 && s[0] != c {
        lemma_first_index(s.skip(1), c);
        assert forall|i: int| 0 <= i < first_index(s, c) implies s[i] != c by {
            if i > 0 {
                assert(s.skip(1)[i - 1] == s[i]);
            }
        }
    }
}

/// The first place with `c` is the one before which there is none.
pub proof fn lemma_first_index_is(s: Seq<char>, c: char, k: int)
    requires
        0 <= k <= s.len(),
        forall|i: int| 0 <= i < k ==> s[i] != c,
        k < s.len() ==> s[k] == c,
    ensures
        first_index(s, c) == k,
{
    lemma_first_index(s, c);
    let f = first_index(s, c) as int;
    if f < k {
        assert(s[f] != c);
    }
    if k < f {
        assert(s[k] != c);
    }
}

proof fn lemma_leading_white(s: Seq<char>)
    ensures
        leading_white(s) <= s.len(),
        forall|i: int| 0 <= i < leading_white(s) ==> is_white(s[i]),
        leading_white(s) < s.len() ==> !is_white(s[leading_white(s) as int]),
    decreases s.len(),
{
    if s.len() > 0 && is_white(s[0]) {
        lemma_leading_white(s.skip(1));
        assert forall|i: int| 0 <= i < leading_white(s) implies is_white(s[i]) by {
            if i > 0 {
                assert(s.skip(1)[i - 1] == s[i]);
            }
        }
    }
}

proof fn lemma_leading_white_is(s: Seq<char>, k: int)
    requires
        0 <= k <= s.len(),
        forall|i: int| 0 <= i < k ==> is_white(s[i]),
        k < s.len() ==> !is_white(s[k]),
    ensures
        leading_white(s) == k,
{
    lemma_leading_white(s);
    let f = leading_white(s) as int;
    if f < k {
        assert(is_white(s[f]));
    }
    if k < f {
        assert(is_white(s[k]));
    }
}

proof fn lemma_trailing_white(s: Seq<char>)
    ensures
        trailing_white(s) <= s.len(),
        forall|i: int| s.len() - trailing_white(s) <= i < s.len() ==> is_white(s[i]),
        trailing_white(s) < s.len() ==> !is_white(s[s.len() - trailing_white(s) - 1]),
    decreases s.len(),
{
    if s.len() > 0 && is_white(s.last()) {
        let shorter = s.drop_last();
        lemma_trailing_white(shorter);
        assert forall|i: int| s.len() - trailing_white(s) <= i < s.len() implies is_white(
            s[i],
        ) by {
            if i < s.len() - 1 {
                assert(shorter[i] == s[i]);
            }
        }
        if trailing_white(s) < s.len() {
            assert(shorter[shorter.len() - trailing_white(shorter) - 1] == s[s.len()
                - trailing_white(s) - 1]);
        }
    }
}

proof fn lemma_trailing_white_is(s: Seq<char>, k: int)
    requires
        0 <= k <= s.len(),
        forall|i: int| s.len() - k <= i < s.len() ==> is_white(s[i]),
        k < s.len() ==> !is_white(s[s.len() - k - 1]),
    ensures
        trailing_white(s) == k,
{
    lemma_trailing_white(s);
    let f = trailing_white(s) as int;
    if f < k {
        assert(is_white(s[s.len() - f - 1]));
    }
    if k < f {
        assert(is_white(s[s.len() - k - 1]));
    }
}

/// The text without the white space around it.
pub fn trim(s: &str) -> (r: &str)
    ensures
        r@ == trimmed(s@),
{
    let n = s.unicode_len();
    let mut start: usize = 0;
    while start < n && white(s.get_char(start))
        invariant
            n == s@.len(),
            start <= n,
            forall|i: int| 0 <= i < start ==> is_white(s@[i]),
        decreases n - start,
    {
        start += 1;
    }
    let mut end: usize = n;
    while end > start && white(s.get_char(end - 1))
        invariant
            n == s@.len(),
            start <= end <= n,
            forall|i: int| end <= i < n ==> is_white(s@[i]),
        decreases end,
    {
        end -= 1;
    }
    proof {
        lemma_leading_white_is(s@, start as int);
        let rest = s@.skip(start as int);
        assert forall|i: int| rest.len() - (n - end) <= i < rest.len() implies is_white(rest[i]) by {
            assert(rest[i] == s@[i + start]);
        }
        if n - end < rest.len() {
            assert(rest[rest.len() - (n - end) - 1] == s@[end - 1]);
        }
        lemma_trailing_white_is(rest, (n - end) as int);
        assert(rest.take(rest.len() - (n - end)) =~= s@.subrange(start as int, end as int));
    }
    s.substring_char(start, end)
}

/// The place of the first `c` in the text, in characters.
pub fn find_char(s: &str, c: char) -> (at: Option<usize>)
    ensures
        match at {
            Some(i) => i == first_index(s@, c) && i < s@.len(),
            None => first_index(s@, c) == s@.len(),
        },
{
    let n = s.unicode_len();
    let mut i: usize = 0;
    while i < n
        invariant
            n == s@.len(),
            i <= n,
            forall|k: int| 0 <= k < i ==> s@[k] != c,
        decreases n - i,
    {
        if s.get_char(i) == c {
            proof {
                lemma_first_index_is(s@, c, i as int);
            }
            return Some(i);
        }
        i += 1;
    }
    proof {
        lemma_first_index_is(s@, c, n as int);
    }
    None
}

/// What stands before the first `c` and what stands after it; `None` if the
/// text has no `c`.
pub fn split_once(s: &str, c: char) -> (parts: Option<(&str, &str)>)
    ensures
        match parts {
            Some((head, tail)) => first_index(s@, c) < s@.len() && head@ == s@.take(
                first_index(s@, c) as int,
            ) && tail@ == s@.skip(first_index(s@, c) as int + 1),
            None => first_index(s@, c) == s@.len(),
        },
{
    match find_char(s, c) {
        Some(i) => {
            let n = s.unicode_len();
            let head = s.substring_char(0, i);
            let tail = s.substring_char(i + 1, n);
            proof {
                assert(head@ =~= s@.take(i as int));
                assert(tail@ =~= s@.skip(i + 1));
            }
            Some((head, tail))
        },
        None => None,
    }
}

/// The pieces of the text between the separators `sep`, in their order.
pub fn split(s: &str, sep: char) -> (list: Vec<&str>)
    ensures
        list@.len() == pieces(s@, sep).len(),
        forall|i: int| 0 <= i < list@.len() ==> (#[trigger] list@[i])@ == pieces(s@, sep)[i],
{
    let mut list: Vec<&str> = Vec::new();
    let mut rest = s;
    loop
        invariant
            pieces(s@, sep).len() == list@.len() + pieces(rest@, sep).len(),
            forall|i: int| 0 <= i < list@.len() ==> (#[trigger] list@[i])@ == pieces(s@, sep)[i],
            forall|i: int|
                0 <= i < pieces(rest@, sep).len() ==> #[trigger] pieces(rest@, sep)[i] == pieces(
                    s@,
                    sep,
                )[list@.len() + i],
        decreases rest@.len(),
    {
        let ghost before = rest@;
        let ghost done = list@.len() as int;
        match split_once(rest, sep) {
            Some((head, tail)) => {
                list.push(head);
                rest = tail;
                proof {
                    let i0 = first_index(before, sep) as int;
                    assert(pieces(before, sep) == seq![before.take(i0)] + pieces(
                        before.skip(i0 + 1),
                        sep,
                    ));
                    assert(pieces(before, sep)[0] == head@);
                    assert forall|i: int| 0 <= i < pieces(rest@, sep).len() implies #[trigger] pieces(
                        rest@,
                        sep,
                    )[i] == pieces(s@, sep)[list@.len() + i] by {
                        assert(pieces(rest@, sep)[i] == pieces(before, sep)[i + 1]);
                    }
                }
            },
            None => {
                list.push(rest);
                proof {
                    assert(pieces(before, sep) == seq![before]);
                    assert(pieces(before, sep)[0] == before);
                }
                return list;
            },
        }
    }
}

/// Whether two texts are the same.
pub fn same_text(a: &str, b: &str) -> (same: bool)
    ensures
        same == (a@ == b@),
{
    let a = a.to_owned();
    let b = b.to_owned();
    a == b
}

/// The text after its first character.
pub fn after_first(s: &str) -> (rest: &str)
    requires
        s@.len() > 0,
    ensures
        rest@ == s@.skip(1),
{
    let n = s.unicode_len();
    let rest = s.substring_char(1, n);
    assert(rest@ =~= s@.skip(1));
    rest
}

} // verus!
