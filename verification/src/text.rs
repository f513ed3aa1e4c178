//! Byte-string primitives shared by the parser, the router and the
//! serializer: literals, comparison, searching, splitting, case folding,
//! trimming and decimal numbers.
//!
//! Everything here works on raw bytes. Letters are folded and whitespace is
//! recognised in the ASCII range only; bytes above it are never altered.

use vstd::prelude::*;
use vstd::slice::{slice_subrange, slice_to_vec};
use vstd::string::is_ascii;

verus! {

pub const CR: u8 = 13;

pub const LF: u8 = 10;

pub const SP: u8 = 32;

pub const COLON: u8 = 58;

pub const SLASH: u8 = 47;

/// The bytes of a text that holds ASCII characters only.
pub open spec fn ascii(text: Seq<char>) -> Seq<u8> {
    Seq::new(text.len(), |i: int| text[i] as u8)
}

/// The bytes of an ASCII string literal.
pub fn literal(text: &'static str) -> (bytes: &'static [u8])
    requires
        is_ascii(text),
    ensures
        bytes@ == ascii(text@),
{
    broadcast use vstd::string::is_ascii_spec_bytes;

    text.as_bytes()
}

/// A fresh copy of `s[from..to]`.
pub fn copy_range(s: &[u8], from: usize, to: usize) -> (out: Vec<u8>)
    requires
        from <= to <= s@.len(),
    ensures
        out@ == s@.subrange(from as int, to as int),
{
    slice_to_vec(slice_subrange(s, from, to))
}

/// Whether two byte strings hold the same bytes.
pub fn equal(a: &[u8], b: &[u8]) -> (same: bool)
    ensures
        same == (a@ == b@),
{
    if a.len() != b.len() {
        return false;
    }
    let mut i: usize = 0;
    while i < a.len()
        invariant
            i <= a@.len(),
            a@.len() == b@.len(),
            forall|j: int| 0 <= j < i ==> a@[j] == b@[j],
        decreases a@.len() - i,
    {
        if a[i] != b[i] {
            return false;
        }
        i += 1;
    }
    assert(a@ =~= b@);
    true
}

/// Whether `s` begins with `prefix`.
pub fn starts_with(s: &[u8], prefix: &[u8]) -> (yes: bool)
    ensures
        yes == prefix@.is_prefix_of(s@),
{
    if prefix.len() > s.len() {
        return false;
    }
    equal(slice_subrange(s, 0, prefix.len()), prefix)
}

/// `i` is the index of the first byte of `s` equal to `b`.
pub open spec fn first_at(s: Seq<u8>, b: u8, i: int) -> bool {
    &&& 0 <= i < s.len()
    &&& s[i] == b
    &&& forall|j: int| 0 <= j < i ==> s[j] != b
}

/// The index of the first byte of `s` equal to `b`, if there is one.
pub open spec fn position(s: Seq<u8>, b: u8) -> Option<int> {
    if exists|i: int| first_at(s, b, i) {
        Some(choose|i: int| first_at(s, b, i))
    } else {
        None
    }
}

/// A first occurrence is the only one that `position` can name.
pub proof fn lemma_position_is(s: Seq<u8>, b: u8, i: int)
    requires
        first_at(s, b, i),
    ensures
        position(s, b) == Some(i),
{
    let c = choose|c: int| first_at(s, b, c);
    assert(first_at(s, b, c));
    if c < i {
        assert(s[c] != b);
    }
    if i < c {
        assert(s[i] != b);
    }
}

/// Without an occurrence there is no position.
pub proof fn lemma_position_none(s: Seq<u8>, b: u8)
    requires
        forall|j: int| 0 <= j < s.len() ==> s[j] != b,
    ensures
        position(s, b).is_none(),
{
}

/// What `position` says of its result, spelled out.
pub proof fn lemma_position_facts(s: Seq<u8>, b: u8)
    ensures
        match position(s, b) {
            Some(i) => first_at(s, b, i),
            None => forall|j: int| 0 <= j < s.len() ==> s[j] != b,
        },
{
    if position(s, b).is_none() {
        assert forall|j: int| 0 <= j < s.len() implies s[j] != b by {
            if s[j] == b {
                lemma_occurrence_has_first(s, b, j);
            }
        }
    }
}

/// An occurrence at `j` implies a first occurrence at or before `j`.
pub proof fn lemma_occurrence_has_first(s: Seq<u8>, b: u8, j: int)
    requires
        0 <= j < s.len(),
        s[j] == b,
    ensures
        exists|i: int| first_at(s, b, i) && i <= j,
    decreases j,
{
    if forall|k: int| 0 <= k < j ==> s[k] != b {
        assert(first_at(s, b, j));
    } else {
        let k = choose|k: int| 0 <= k < j && s[k] == b;
        lemma_occurrence_has_first(s, b, k);
    }
}

/// Searches `s` for the first byte equal to `b`.
pub fn find(s: &[u8], b: u8) -> (found: Option<usize>)
    ensures
        match found {
            Some(i) => position(s@, b) == Some(i as int),
            None => position(s@, b).is_none(),
        },
{
    let mut i: usize = 0;
    while i < s.len()
        invariant
            i <= s@.len(),
            forall|j: int| 0 <= j < i ==> s@[j] != b,
        decreases s@.len() - i,
    {
        if s[i] == b {
            proof {
                lemma_position_is(s@, b, i as int);
            }
            return Some(i);
        }
        i += 1;
    }
    proof {
        lemma_position_none(s@, b);
    }
    None
}

/// The pieces of `s` between occurrences of `sep`. There is always at least
/// one piece; two separators in a row enclose an empty piece.
pub open spec fn spec_split(s: Seq<u8>, sep: u8) -> Seq<Seq<u8>>
    decreases s.len(),
{
    match position(s, sep) {
        Some(i) => seq![s.take(i)] + spec_split(s.skip(i + 1), sep),
        None => seq![s],
    }
}

/// The pieces joined again, with `sep` between each two neighbours.
pub open spec fn spec_join(parts: Seq<Seq<u8>>, sep: u8) -> Seq<u8>
    decreases parts.len(),
{
    if parts.len() == 0 {
        Seq::empty()
    } else if parts.len() == 1 {
        parts[0]
    } else {
        parts[0] + seq![sep] + spec_join(parts.drop_first(), sep)
    }
}

/// The byte strings that a vector of vectors holds.
pub open spec fn views(parts: Seq<Vec<u8>>) -> Seq<Seq<u8>> {
    Seq::new(parts.len(), |i: int| parts[i]@)
}

/// Splitting never yields an empty list of pieces.
pub proof fn lemma_split_nonempty(s: Seq<u8>, sep: u8)
    ensures
        spec_split(s, sep).len() >= 1,
    decreases s.len(),
{
    match position(s, sep) {
        Some(i) => {
            lemma_split_nonempty(s.skip(i + 1), sep);
        },
        None => {},
    }
}

/// Joining what was split gives the same bytes back.
pub proof fn lemma_join_split(s: Seq<u8>, sep: u8)
    ensures
        spec_join(spec_split(s, sep), sep) == s,
    decreases s.len(),
{
    match position(s, sep) {
        Some(i) => {
            let rest = s.skip(i + 1);
            let tail = spec_split(rest, sep);
            let all = seq![s.take(i)] + tail;
            lemma_split_nonempty(rest, sep);
            lemma_join_split(rest, sep);
            assert(all.drop_first() =~= tail);
            assert(all[0] == s.take(i));
            assert(s.take(i) + seq![sep] + rest =~= s);
        },
        None => {},
    }
}

/// Splits `s` at every occurrence of `sep`.
pub fn split(s: &[u8], sep: u8) -> (parts: Vec<Vec<u8>>)
    ensures
        views(parts@) == spec_split(s@, sep),
{
    let mut parts: Vec<Vec<u8>> = Vec::new();
    let mut start: usize = 0;
    let mut i: usize = 0;
    proof {
        assert(s@.skip(0) =~= s@);
        assert(views(parts@) + spec_split(s@, sep) =~= spec_split(s@, sep));
    }
    while i < s.len()
        invariant
            start <= i <= s@.len(),
            forall|j: int| start <= j < i ==> s@[j] != sep,
            spec_split(s@, sep) == views(parts@) + spec_split(s@.skip(start as int), sep),
        decreases s@.len() - i,
    {
        if s[i] == sep {
            let piece = copy_range(s, start, i);
            proof {
                let rest = s@.skip(start as int);
                lemma_position_is(rest, sep, i - start);
                assert(rest.take(i - start) =~= piece@);
                assert(rest.skip(i - start + 1) =~= s@.skip(i + 1));
                assert(views(parts@.push(piece)) =~= views(parts@) + seq![piece@]);
            }
            parts.push(piece);
            start = i + 1;
        }
        i += 1;
    }
    let piece = copy_range(s, start, s.len());
    proof {
        let rest = s@.skip(start as int);
        lemma_position_none(rest, sep);
        assert(rest =~= piece@);
        assert(views(parts@.push(piece)) =~= views(parts@) + seq![piece@]);
    }
    parts.push(piece);
    parts
}

/// Joins the pieces from index `from` on, with `sep` between them. Past the
/// last piece there is nothing to join.
pub fn join_from(parts: &Vec<Vec<u8>>, from: usize, sep: u8) -> (out: Vec<u8>)
    ensures
        out@ == if from < parts@.len() {
            spec_join(views(parts@).skip(from as int), sep)
        } else {
            Seq::<u8>::empty()
        },
{
    let mut out: Vec<u8> = Vec::new();
    if from >= parts.len() {
        return out;
    }
    let ghost all = views(parts@);
    let mut k: usize = from;
    while k < parts.len()
        invariant
            from <= k <= parts@.len(),
            from < parts@.len(),
            all == views(parts@),
            spec_join(all.skip(from as int), sep) == out@ + (if k == from {
                spec_join(all.skip(k as int), sep)
            } else if k == parts@.len() {
                Seq::<u8>::empty()
            } else {
                seq![sep] + spec_join(all.skip(k as int), sep)
            }),
        decreases parts@.len() - k,
    {
        proof {
            let here = all.skip(k as int);
            assert(here[0] == parts@[k as int]@);
            assert(here.drop_first() =~= all.skip(k + 1));
        }
        let ghost before = out@;
        if k > from {
            out.push(sep);
        }
        append(&mut out, parts[k].as_slice());
        proof {
            let piece = parts@[k as int]@;
            if k > from {
                assert(out@ =~= before + seq![sep] + piece);
            }
            if k + 1 < parts@.len() {
                assert(out@ + (seq![sep] + spec_join(all.skip(k + 1), sep)) =~= (out@ + seq![sep])
                    + spec_join(all.skip(k + 1), sep));
            }
        }
        k += 1;
    }
    out
}

/// Appends a copy of `more` to `out`.
pub fn append(out: &mut Vec<u8>, more: &[u8])
    ensures
        final(out)@ == old(out)@ + more@,
{
    let ghost before = out@;
    let mut i: usize = 0;
    while i < more.len()
        invariant
            i <= more@.len(),
            out@ == before + more@.take(i as int),
        decreases more@.len() - i,
    {
        out.push(more[i]);
        proof {
            assert(more@.take(i + 1) =~= more@.take(i as int).push(more@[i as int]));
        }
        i += 1;
    }
    assert(more@.take(more@.len() as int) =~= more@);
}

/// The lower-case form of an ASCII capital letter; any other byte itself.
pub open spec fn spec_lower(b: u8) -> u8 {
    if 65 <= b <= 90 {
        (b + 32) as u8
    } else {
        b
    }
}

/// `s` with each byte replaced by its lower-case form.
pub open spec fn spec_lowercase(s: Seq<u8>) -> Seq<u8> {
    Seq::new(s.len(), |i: int| spec_lower(s[i]))
}

/// Folds one byte to lower case.
pub fn lower(b: u8) -> (l: u8)
    ensures
        l == spec_lower(b),
{
    if 65 <= b && b <= 90 {
        b + 32
    } else {
        b
    }
}

/// Folds a byte string to lower case.
pub fn lowercase(s: &[u8]) -> (out: Vec<u8>)
    ensures
        out@ == spec_lowercase(s@),
{
    let mut out: Vec<u8> = Vec::new();
    let mut i: usize = 0;
    while i < s.len()
        invariant
            i <= s@.len(),
            out@.len() == i,
            forall|j: int| 0 <= j < i ==> out@[j] == spec_lower(s@[j]),
        decreases s@.len() - i,
    {
        out.push(lower(s[i]));
        i += 1;
    }
    assert(out@ =~= spec_lowercase(s@));
    out
}

/// Space, tab, line feed, vertical tab, form feed and carriage return.
pub open spec fn spec_is_space(b: u8) -> bool {
    b == 32 || 9 <= b <= 13
}

/// `s` without its leading whitespace.
pub open spec fn spec_trim_start(s: Seq<u8>) -> Seq<u8>
    decreases s.len(),
{
    if s.len() > 0 && spec_is_space(s[0]) {
        spec_trim_start(s.drop_first())
    } else {
        s
    }
}

/// `s` without its trailing whitespace.
pub open spec fn spec_trim_end(s: Seq<u8>) -> Seq<u8>
    decreases s.len(),
{
    if s.len() > 0 && spec_is_space(s.last()) {
        spec_trim_end(s.drop_last())
    } else {
        s
    }
}

/// `s` without the whitespace at either end.
pub open spec fn spec_trim(s: Seq<u8>) -> Seq<u8> {
    spec_trim_end(spec_trim_start(s))
}

/// Whether a byte is ASCII whitespace.
pub fn is_space(b: u8) -> (yes: bool)
    ensures
        yes == spec_is_space(b),
{
    b == 32 || (9 <= b && b <= 13)
}

/// A trimmed byte string neither begins nor ends with whitespace.
pub proof fn lemma_trim_is_tight(s: Seq<u8>)
    ensures
        spec_trim(s).len() > 0 ==> !spec_is_space(spec_trim(s).first()) && !spec_is_space(
            spec_trim(s).last(),
        ),
{
    lemma_trim_start_shape(s);
    lemma_trim_end_shape(spec_trim_start(s));
}

/// `spec_trim_start` cuts a prefix of whitespace and stops at the first byte
/// that is none.
pub proof fn lemma_trim_start_shape(s: Seq<u8>)
    ensures
        ({
            let t = spec_trim_start(s);
            let cut = s.len() - t.len();
            &&& 0 <= cut <= s.len()
            &&& t == s.skip(cut)
            &&& forall|j: int| 0 <= j < cut ==> spec_is_space(s[j])
            &&& t.len() > 0 ==> !spec_is_space(t.first())
        }),
    decreases s.len(),
{
    if s.len() > 0 && spec_is_space(s[0]) {
        let rest = s.drop_first();
        lemma_trim_start_shape(rest);
        let t = spec_trim_start(rest);
        let cut = rest.len() - t.len();
        assert(rest.skip(cut) =~= s.skip(cut + 1));
        assert forall|j: int| 0 <= j < cut + 1 implies spec_is_space(s[j]) by {
            if j > 0 {
                assert(s[j] == rest[j - 1]);
            }
        }
    } else {
        assert(s.skip(0) =~= s);
    }
}

/// `spec_trim_end` cuts a suffix of whitespace and stops at the last byte
/// that is none; what was tight at the front stays so.
pub proof fn lemma_trim_end_shape(s: Seq<u8>)
    ensures
        ({
            let t = spec_trim_end(s);
            &&& t.len() <= s.len()
            &&& t == s.take(t.len() as int)
            &&& forall|j: int| t.len() <= j < s.len() ==> spec_is_space(s[j])
            &&& t.len() > 0 ==> !spec_is_space(t.last())
        }),
    decreases s.len(),
{
    if s.len() > 0 && spec_is_space(s.last()) {
        let rest = s.drop_last();
        lemma_trim_end_shape(rest);
        let t = spec_trim_end(rest);
        assert(rest.take(t.len() as int) =~= s.take(t.len() as int));
        assert forall|j: int| t.len() <= j < s.len() implies spec_is_space(s[j]) by {
            if j < rest.len() {
                assert(s[j] == rest[j]);
            }
        }
    } else {
        assert(s.take(s.len() as int) =~= s);
    }
}

/// Strips the whitespace at both ends.
pub fn trim(s: &[u8]) -> (out: Vec<u8>)
    ensures
        out@ == spec_trim(s@),
{
    let mut start: usize = 0;
    proof {
        assert(s@.skip(0) =~= s@);
    }
    while start < s.len() && is_space(s[start])
        invariant
            start <= s@.len(),
            spec_trim_start(s@) == spec_trim_start(s@.skip(start as int)),
        decreases s@.len() - start,
    {
        proof {
            assert(s@.skip(start as int).drop_first() =~= s@.skip(start + 1));
        }
        start += 1;
    }
    let ghost front = s@.skip(start as int);
    assert(spec_trim_start(s@) == front);
    let mut end: usize = s.len();
    proof {
        assert(s@.subrange(start as int, end as int) =~= front);
    }
    while end > start && is_space(s[end - 1])
        invariant
            start <= end <= s@.len(),
            spec_trim_end(front) == spec_trim_end(s@.subrange(start as int, end as int)),
        decreases end,
    {
        proof {
            assert(s@.subrange(start as int, end as int).drop_last() =~= s@.subrange(
                start as int,
                end - 1,
            ));
        }
        end -= 1;
    }
    copy_range(s, start, end)
}

/// Whether a byte is one of the ten decimal digits.
pub open spec fn is_digit(b: u8) -> bool {
    48 <= b <= 57
}

/// Whether every byte of `s` is a decimal digit.
pub open spec fn all_digits(s: Seq<u8>) -> bool {
    forall|i: int| 0 <= i < s.len() ==> is_digit(#[trigger] s[i])
}

/// The number that the digits of `s` spell, most significant first.
pub open spec fn decimal_value(s: Seq<u8>) -> nat
    decreases s.len(),
{
    if s.len() == 0 {
        0
    } else {
        decimal_value(s.drop_last()) * 10 + if is_digit(s.last()) {
            (s.last() - 48) as nat
        } else {
            0
        }
    }
}

/// The number written in `s`: one or more decimal digits and nothing else.
pub open spec fn spec_parse_decimal(s: Seq<u8>) -> Option<nat> {
    if s.len() > 0 && all_digits(s) {
        Some(decimal_value(s))
    } else {
        None
    }
}

/// A prefix of a digit string spells a number that is no larger.
pub proof fn lemma_decimal_prefix(s: Seq<u8>, k: int)
    requires
        0 <= k <= s.len(),
    ensures
        decimal_value(s.take(k)) <= decimal_value(s),
    decreases s.len() - k,
{
    if k == s.len() {
        assert(s.take(k) =~= s);
    } else {
        lemma_decimal_prefix(s.drop_last(), k);
        assert(s.drop_last().take(k) =~= s.take(k));
    }
}

/// Reads a decimal number. The text must be digits only, at least one of
/// them, and the number must fit the machine word.
pub fn parse_decimal(s: &[u8]) -> (n: Option<usize>)
    ensures
        n == match spec_parse_decimal(s@) {
            Some(v) => if v <= usize::MAX {
                Some(v as usize)
            } else {
                None
            },
            None => None,
        },
{
    if s.len() == 0 {
        return None;
    }
    let mut value: usize = 0;
    let mut i: usize = 0;
    while i < s.len()
        invariant
            i <= s@.len(),
            all_digits(s@.take(i as int)),
            value == decimal_value(s@.take(i as int)),
        decreases s@.len() - i,
    {
        let b: u8 = s[i];
        if b < 48 || b > 57 {
            assert(!is_digit(s@[i as int]));
            return None;
        }
        let digit: usize = (b - 48) as usize;
        proof {
            let next = s@.take(i + 1);
            assert(next.drop_last() =~= s@.take(i as int));
            assert(next.last() == b);
            assert(decimal_value(next) == value * 10 + digit);
            lemma_decimal_prefix(s@, i + 1);
            assert forall|j: int| 0 <= j < next.len() implies is_digit(#[trigger] next[j]) by {
                if j < i {
                    assert(next[j] == s@.take(i as int)[j]);
                }
            }
        }
        let scaled: usize = match value.checked_mul(10) {
            Some(v) => v,
            None => {
                return None;
            },
        };
        value = match scaled.checked_add(digit) {
            Some(v) => v,
            None => {
                return None;
            },
        };
        i += 1;
    }
    assert(s@.take(i as int) =~= s@);
    Some(value)
}

/// The decimal digits of `n`, most significant first, without leading zeros.
pub open spec fn spec_decimal(n: nat) -> Seq<u8>
    decreases n,
{
    if n < 10 {
        seq![(48 + n) as u8]
    } else {
        spec_decimal(n / 10).push((48 + n % 10) as u8)
    }
}

/// Writes a number in decimal.
pub fn decimal(n: usize) -> (out: Vec<u8>)
    ensures
        out@ == spec_decimal(n as nat),
    decreases n,
{
    if n < 10 {
        let mut out: Vec<u8> = Vec::new();
        out.push(48 + n as u8);
        assert(out@ =~= seq![(48 + n) as u8]);
        out
    } else {
        let mut out = decimal(n / 10);
        out.push(48 + (n % 10) as u8);
        out
    }
}

/// A number written in decimal reads back as itself.
pub proof fn lemma_decimal_round_trip(n: nat)
    ensures
        spec_parse_decimal(spec_decimal(n)) == Some(n),
    decreases n,
{
    let s = spec_decimal(n);
    if n < 10 {
        assert(s.drop_last() =~= Seq::<u8>::empty());
        assert(decimal_value(s.drop_last()) == 0);
    } else {
        lemma_decimal_round_trip(n / 10);
        let head = spec_decimal(n / 10);
        assert(s.drop_last() =~= head);
        assert forall|i: int| 0 <= i < s.len() implies is_digit(#[trigger] s[i]) by {
            if i < head.len() {
                assert(s[i] == head[i]);
            }
        }
    }
}

} // verus!
