//! Reading a raw value out of a sectioned `key = value` text document.
//!
//! The document is read line by line. A line whose trimmed text starts with
//! `[` opens a section, named by that text with the surrounding brackets
//! stripped; opening a section again starts it afresh. A line whose trimmed
//! text starts with `#` is a comment. Any other line holding an `=` assigns
//! the trimmed text after its first `=` to the trimmed text before it, within
//! the section opened last. Every other line is ignored, as are assignments
//! that come before any section. The last assignment to a key wins.
use vstd::prelude::*;

verus! {

pub const NEWLINE: u8 = 10;

pub const EQUALS: u8 = 61;

pub const OPEN_BRACKET: u8 = 91;

pub const CLOSE_BRACKET: u8 = 93;

pub const HASH: u8 = 35;

/// ASCII whitespace: space, tab, line feed, vertical tab, form feed, carriage return.
pub open spec fn is_space(b: u8) -> bool {
    b == 32 || b == 9 || b == 10 || b == 11 || b == 12 || b == 13
}

/// The bytes stripped around a section name.
pub open spec fn is_bracket(b: u8) -> bool {
    b == OPEN_BRACKET || b == CLOSE_BRACKET
}

pub open spec fn strippable(b: u8, brackets: bool) -> bool {
    if brackets {
        is_bracket(b)
    } else {
        is_space(b)
    }
}

/// Index of the newline that ends the line starting at `i`, or the document's length.
pub open spec fn line_end(s: Seq<u8>, i: int) -> int
    decreases s.len() - i,
{
    if i < 0 || i >= s.len() || s[i] == NEWLINE {
        i
    } else {
        line_end(s, i + 1)
    }
}

/// Index of the first `=` in `[i, j)`, or `j`.
pub open spec fn first_equals(s: Seq<u8>, i: int, j: int) -> int
    decreases j - i,
{
    if i >= j || s[i] == EQUALS {
        i
    } else {
        first_equals(s, i + 1, j)
    }
}

/// Start of `[i, j)` once strippable bytes are taken off its front.
pub open spec fn strip_front(s: Seq<u8>, i: int, j: int, brackets: bool) -> int
    decreases j - i,
{
    if i >= j || !strippable(s[i], brackets) {
        i
    } else {
        strip_front(s, i + 1, j, brackets)
    }
}

/// End of `[i, j)` once strippable bytes are taken off its back.
pub open spec fn strip_back(s: Seq<u8>, i: int, j: int, brackets: bool) -> int
    decreases j - i,
{
    if j <= i || !strippable(s[j - 1], brackets) {
        j
    } else {
        strip_back(s, i, j - 1, brackets)
    }
}

/// `[i, j)` with strippable bytes taken off both ends, as a pair of indices.
pub open spec fn stripped(s: Seq<u8>, i: int, j: int, brackets: bool) -> (int, int) {
    let a = strip_front(s, i, j, brackets);
    (a, strip_back(s, a, j, brackets))
}

/// What reading the line `[i, e)` does to the state of a lookup of `key` in
/// `section`: whether that section is open, and the value found so far.
pub open spec fn read_line(
    s: Seq<u8>,
    i: int,
    e: int,
    in_section: bool,
    found: Option<Seq<u8>>,
    section: Seq<u8>,
    key: Seq<u8>,
) -> (bool, Option<Seq<u8>>) {
    let (a, b) = stripped(s, i, e, false);
    if a < b && s[a] == OPEN_BRACKET {
        let (na, nb) = stripped(s, a, b, true);
        if s.subrange(na, nb) == section {
            (true, None)
        } else {
            (false, found)
        }
    } else if a < b && s[a] == HASH {
        (in_section, found)
    } else {
        let p = first_equals(s, i, e);
        if p < e && in_section {
            let (ka, kb) = stripped(s, i, p, false);
            let (va, vb) = stripped(s, p + 1, e, false);
            if s.subrange(ka, kb) == key {
                (in_section, Some(s.subrange(va, vb)))
            } else {
                (in_section, found)
            }
        } else {
            (in_section, found)
        }
    }
}

/// The value of `key` in `section` once the lines from `i` on have been read.
pub open spec fn scan(
    s: Seq<u8>,
    i: int,
    in_section: bool,
    found: Option<Seq<u8>>,
    section: Seq<u8>,
    key: Seq<u8>,
) -> Option<Seq<u8>>
    decreases s.len() - i,
{
    if i < 0 || i >= s.len() {
        found
    } else {
        let e = line_end(s, i);
        if e < i {
            found
        } else {
            let next = read_line(s, i, e, in_section, found, section, key);
            if e >= s.len() {
                next.1
            } else {
                scan(s, e + 1, next.0, next.1, section, key)
            }
        }
    }
}

/// The raw text that the document `s` assigns to `key` in `section`, if any.
pub open spec fn raw_value(s: Seq<u8>, section: Seq<u8>, key: Seq<u8>) -> Option<Seq<u8>> {
    scan(s, 0, false, None, section, key)
}

fn find_line_end(s: &[u8], i: usize) -> (r: usize)
    requires
        i <= s@.len(),
    ensures
        r as int == line_end(s@, i as int),
        i <= r <= s@.len(),
{
    let mut j: usize = i;
    while j < s.len() && s[j] != NEWLINE
        invariant
            i <= j <= s@.len(),
            line_end(s@, i as int) == line_end(s@, j as int),
        decreases s@.len() - j,
    {
        j = j + 1;
    }
    j
}

fn find_equals(s: &[u8], i: usize, j: usize) -> (r: usize)
    requires
        i <= j <= s@.len(),
    ensures
        r as int == first_equals(s@, i as int, j as int),
        i <= r <= j,
{
    let mut k: usize = i;
    while k < j && s[k] != EQUALS
        invariant
            i <= k <= j <= s@.len(),
            first_equals(s@, i as int, j as int) == first_equals(s@, k as int, j as int),
        decreases j - k,
    {
        k = k + 1;
    }
    k
}

fn is_strippable(b: u8, brackets: bool) -> (r: bool)
    ensures
        r == strippable(b, brackets),
{
    if brackets {
        b == OPEN_BRACKET || b == CLOSE_BRACKET
    } else {
        b == 32 || b == 9 || b == 10 || b == 11 || b == 12 || b == 13
    }
}

fn strip_range(s: &[u8], i: usize, j: usize, brackets: bool) -> (r: (usize, usize))
    requires
        i <= j <= s@.len(),
    ensures
        (r.0 as int, r.1 as int) == stripped(s@, i as int, j as int, brackets),
        i <= r.0 <= r.1 <= j,
{
    let mut a: usize = i;
    while a < j && is_strippable(s[a], brackets)
        invariant
            i <= a <= j <= s@.len(),
            strip_front(s@, i as int, j as int, brackets) == strip_front(
                s@,
                a as int,
                j as int,
                brackets,
            ),
        decreases j - a,
    {
        a = a + 1;
    }
    let mut b: usize = j;
    while b > a && is_strippable(s[b - 1], brackets)
        invariant
            i <= a <= b <= j <= s@.len(),
            strip_back(s@, a as int, j as int, brackets) == strip_back(
                s@,
                a as int,
                b as int,
                brackets,
            ),
        decreases b - a,
    {
        b = b - 1;
    }
    (a, b)
}

/// Whether `s[a..b]` equals `t`.
fn range_equals(s: &[u8], a: usize, b: usize, t: &[u8]) -> (r: bool)
    requires
        a <= b <= s@.len(),
    ensures
        r == (s@.subrange(a as int, b as int) == t@),
{
    if b - a != t.len() {
        return false;
    }
    let mut k: usize = 0;
    while k < t.len()
        invariant
            b - a == t@.len(),
            a <= b <= s@.len(),
            0 <= k <= t@.len(),
            forall|m: int| 0 <= m < k ==> s@[a + m] == t@[m],
        decreases t@.len() - k,
    {
        if s[a + k] != t[k] {
            assert(s@.subrange(a as int, b as int)[k as int] != t@[k as int]);
            return false;
        }
        k = k + 1;
    }
    assert(s@.subrange(a as int, b as int) =~= t@);
    true
}

fn copy_range(s: &[u8], a: usize, b: usize) -> (r: Vec<u8>)
    requires
        a <= b <= s@.len(),
    ensures
        r@ == s@.subrange(a as int, b as int),
{
    let mut r: Vec<u8> = Vec::new();
    let mut k: usize = a;
    while k < b
        invariant
            a <= k <= b <= s@.len(),
            r@ == s@.subrange(a as int, k as int),
        decreases b - k,
    {
        r.push(s[k]);
        assert(r@ =~= s@.subrange(a as int, k + 1));
        k = k + 1;
    }
    r
}

/// Reads the text assigned to `key` in `section` of the document `s`.
pub fn lookup(s: &[u8], section: &[u8], key: &[u8]) -> (r: Option<Vec<u8>>)
    ensures
        match r {
            Some(v) => raw_value(s@, section@, key@) == Some(v@),
            None => raw_value(s@, section@, key@) is None,
        },
{
    let mut i: usize = 0;
    let mut in_section = false;
    let mut found: Option<(usize, usize)> = None;
    let ghost spec_found: Option<Seq<u8>> = None;
    while i < s.len()
        invariant
            0 <= i <= s@.len(),
            spec_found == match found {
                Some(p) => Some(s@.subrange(p.0 as int, p.1 as int)),
                None => None::<Seq<u8>>,
            },
            match found {
                Some(p) => p.0 <= p.1 <= s@.len(),
                None => true,
            },
            raw_value(s@, section@, key@) == scan(
                s@,
                i as int,
                in_section,
                spec_found,
                section@,
                key@,
            ),
        decreases s@.len() - i,
    {
        let ghost was_in = in_section;
        let ghost was_found = spec_found;
        let e = find_line_end(s, i);
        let (a, b) = strip_range(s, i, e, false);
        if a < b && s[a] == OPEN_BRACKET {
            let (na, nb) = strip_range(s, a, b, true);
            if range_equals(s, na, nb, section) {
                in_section = true;
                found = None;
            } else {
                in_section = false;
            }
        } else if a < b && s[a] == HASH {
        } else {
            let p = find_equals(s, i, e);
            if p < e && in_section {
                let (ka, kb) = strip_range(s, i, p, false);
                let (va, vb) = strip_range(s, p + 1, e, false);
                if range_equals(s, ka, kb, key) {
                    found = Some((va, vb));
                }
            }
        }
        proof {
            spec_found = match found {
                Some(p) => Some(s@.subrange(p.0 as int, p.1 as int)),
                None => None::<Seq<u8>>,
            };
            assert(read_line(s@, i as int, e as int, was_in, was_found, section@, key@) == (
            in_section, spec_found));
            assert(scan(s@, i as int, was_in, was_found, section@, key@) == scan(
                s@,
                e + 1,
                in_section,
                spec_found,
                section@,
                key@,
            ));
        }
        if e == s.len() {
            i = e;
        } else {
            i = e + 1;
        }
    }
    match found {
        Some(p) => Some(copy_range(s, p.0, p.1)),
        None => None,
    }
}

} // verus!
