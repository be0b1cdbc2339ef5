//! The text form of an edge list: one edge per line, two numbers separated
//! by a comma, with square brackets anywhere around them.
use vstd::prelude::*;
use vstd::string::StringSliceAdditionalSpecFns;

verus! {

/// An ASCII digit.
pub open spec fn is_digit(b: u8) -> bool {
    48 <= b <= 57
}

/// Every byte is an ASCII digit.
pub open spec fn all_digits(s: Seq<u8>) -> bool {
    forall|i: int| 0 <= i < s.len() ==> is_digit(#[trigger] s[i])
}

/// The number that decimal digits stand for.
pub open spec fn value_of(digits: Seq<u8>) -> nat
    decreases digits.len(),
{
    if digits.len() == 0 {
        0
    } else {
        value_of(digits.drop_last()) * 10 + if digits.last() >= 48 {
            (digits.last() - 48) as nat
        } else {
            0nat
        }
    }
}

/// `s` without one leading plus sign.
pub open spec fn unsigned(s: Seq<u8>) -> Seq<u8> {
    if s.len() > 0 && s[0] == 43 {
        s.drop_first()
    } else {
        s
    }
}

/// The element id that `s` spells: an optional plus sign and at least one
/// digit, nothing else, with a value within 64 bits.
pub open spec fn number(s: Seq<u8>) -> Option<u64> {
    let d = unsigned(s);
    if d.len() > 0 && all_digits(d) && value_of(d) <= u64::MAX {
        Some(value_of(d) as u64)
    } else {
        None
    }
}

/// `s` without its square brackets.
pub open spec fn unbracketed(s: Seq<u8>) -> Seq<u8>
    decreases s.len(),
{
    if s.len() == 0 {
        s
    } else if s.last() == 91 || s.last() == 93 {
        unbracketed(s.drop_last())
    } else {
        unbracketed(s.drop_last()).push(s.last())
    }
}

/// The first byte `mark` of `s` stands at index `k`.
pub open spec fn first_at(s: Seq<u8>, mark: u8, k: int) -> bool {
    &&& 0 <= k < s.len()
    &&& s[k] == mark
    &&& forall|j: int| 0 <= j < k ==> s[j] != mark
}

/// The edge that a line spells: with the brackets removed, a number, a
/// comma and a number. A line with more or fewer than two numbers spells
/// none.
pub open spec fn edge_of(line: Seq<u8>) -> Option<(u64, u64)> {
    let t = unbracketed(line);
    if exists|k: int| first_at(t, 44, k) {
        let k = choose|k: int| first_at(t, 44, k);
        match (number(t.take(k)), number(t.skip(k + 1))) {
            (Some(a), Some(b)) => Some((a, b)),
            _ => None,
        }
    } else {
        None
    }
}

/// The lines of a text: the pieces between its line feeds.
pub open spec fn lines_of(text: Seq<u8>) -> Seq<Seq<u8>>
    decreases text.len(),
{
    if exists|k: int| first_at(text, 10, k) {
        let k = choose|k: int| first_at(text, 10, k);
        seq![text.take(k)] + lines_of(text.skip(k + 1))
    } else {
        seq![text]
    }
}

/// The edges that a text spells, line by line; none where a line spells no
/// edge.
pub open spec fn edges_of(text: Seq<u8>) -> Option<Seq<(u64, u64)>> {
    let lines = lines_of(text);
    if forall|i: int| 0 <= i < lines.len() ==> edge_of(#[trigger] lines[i]) is Some {
        Some(Seq::new(lines.len(), |i: int| edge_of(lines[i])->0))
    } else {
        None
    }
}

/// The first mark of a sequence stands at one index only.
pub proof fn lemma_first_at(s: Seq<u8>, mark: u8, k: int)
    requires
        first_at(s, mark, k),
    ensures
        (choose|j: int| first_at(s, mark, j)) == k,
{
    let j = choose|j: int| first_at(s, mark, j);
    assert(first_at(s, mark, j));
    if j < k {
        assert(s[j] != mark);
    } else if k < j {
        assert(s[k] != mark);
    }
}

/// More digits never spell a smaller number.
pub proof fn lemma_value_grows(digits: Seq<u8>, n: int)
    requires
        0 <= n <= digits.len(),
    ensures
        value_of(digits.take(n)) <= value_of(digits),
    decreases digits.len() - n,
{
    if n < digits.len() {
        lemma_value_grows(digits, n + 1);
        assert(digits.take(n + 1).drop_last() =~= digits.take(n));
    } else {
        assert(digits.take(n) =~= digits);
    }
}

/// Reads the element id that the bytes from `from` up to `to` spell.
fn parse_number(bytes: &Vec<u8>, from: usize, to: usize) -> (r: Option<u64>)
    requires
        from <= to <= bytes.len(),
    ensures
        r == number(bytes@.subrange(from as int, to as int)),
{
    let ghost s = bytes@.subrange(from as int, to as int);
    let mut i: usize = from;
    if i < to && bytes[i] == 43 {
        i += 1;
    }
    let start = i;
    let ghost d = unsigned(s);
    assert(d =~= bytes@.subrange(start as int, to as int));
    if start == to {
        return None;
    }
    let mut acc: u64 = 0;
    assert(d.take(0) =~= Seq::<u8>::empty());
    while i < to
        invariant
            from <= start <= i <= to <= bytes.len(),
            start < to,
            d == bytes@.subrange(start as int, to as int),
            d == unsigned(bytes@.subrange(from as int, to as int)),
            all_digits(d.take(i - start)),
            acc == value_of(d.take(i - start)),
        decreases to - i,
    {
        let b = bytes[i];
        let ghost j = i - start;
        proof {
            assert(d.take(j + 1).drop_last() =~= d.take(j));
            assert(d.take(j + 1).last() == b);
            lemma_value_grows(d, j + 1);
        }
        if b < 48 || b > 57 {
            assert(!is_digit(d[j]));
            return None;
        }
        let digit = (b - 48) as u64;
        let next = match acc.checked_mul(10) {
            Some(tens) => tens.checked_add(digit),
            None => None,
        };
        match next {
            Some(value) => {
                acc = value;
            },
            None => {
                assert(value_of(d.take(j + 1)) == acc * 10 + digit);
                assert(value_of(d) > u64::MAX);
                return None;
            },
        }
        proof {
            assert forall|k: int| 0 <= k < d.take(j + 1).len() implies is_digit(
                #[trigger] d.take(j + 1)[k],
            ) by {
                if k < j {
                    assert(is_digit(d.take(j)[k]));
                }
            }
        }
        i += 1;
    }
    assert(d.take(to - start) =~= d);
    Some(acc)
}

/// Removes the square brackets.
fn strip(bytes: &[u8]) -> (out: Vec<u8>)
    ensures
        out@ == unbracketed(bytes@),
{
    let mut out: Vec<u8> = Vec::new();
    let mut i: usize = 0;
    assert(bytes@.take(0) =~= Seq::<u8>::empty());
    while i < bytes.len()
        invariant
            0 <= i <= bytes.len(),
            out@ == unbracketed(bytes@.take(i as int)),
        decreases bytes.len() - i,
    {
        assert(bytes@.take(i + 1).drop_last() =~= bytes@.take(i as int));
        assert(bytes@.take(i + 1).last() == bytes@[i as int]);
        let b = bytes[i];
        if b != 91 && b != 93 {
            out.push(b);
        }
        i += 1;
    }
    assert(bytes@.take(bytes.len() as int) =~= bytes@);
    out
}

/// Reads the edge that a line spells.
pub fn parse_edge_bytes(line: &[u8]) -> (r: Option<(u64, u64)>)
    ensures
        r == edge_of(line@),
{
    let t = strip(line);
    let mut k: usize = 0;
    while k < t.len() && t[k] != 44
        invariant
            0 <= k <= t.len(),
            forall|j: int| 0 <= j < k ==> t@[j] != 44,
        decreases t.len() - k,
    {
        k += 1;
    }
    if k == t.len() {
        assert(!exists|j: int| first_at(t@, 44, j));
        return None;
    }
    proof {
        assert(first_at(t@, 44, k as int));
        lemma_first_at(t@, 44, k as int);
        assert(t@.take(k as int) =~= t@.subrange(0, k as int));
        assert(t@.skip(k + 1) =~= t@.subrange(k + 1, t@.len() as int));
    }
    let a = parse_number(&t, 0, k);
    let b = parse_number(&t, k + 1, t.len());
    match (a, b) {
        (Some(a), Some(b)) => Some((a, b)),
        _ => None,
    }
}

/// Reads the edge that a line spells: with the brackets removed, a number,
/// a comma and a number.
pub fn parse_edge(edge: &str) -> (r: Option<(u64, u64)>)
    ensures
        r == edge_of(edge.spec_bytes()),
{
    parse_edge_bytes(edge.as_bytes())
}


/// The lines of a text that starts with a line without line feed, and then
/// a line feed.
pub proof fn lemma_lines_split(text: Seq<u8>, k: int)
    requires
        first_at(text, 10, k),
    ensures
        lines_of(text) == seq![text.take(k)] + lines_of(text.skip(k + 1)),
{
    lemma_first_at(text, 10, k);
}

/// The bytes of `bytes` from `from` up to `to`.
fn piece(bytes: &[u8], from: usize, to: usize) -> (out: Vec<u8>)
    requires
        from <= to <= bytes.len(),
    ensures
        out@ == bytes@.subrange(from as int, to as int),
{
    let mut out: Vec<u8> = Vec::new();
    let mut i: usize = from;
    while i < to
        invariant
            from <= i <= to <= bytes.len(),
            out@ == bytes@.subrange(from as int, i as int),
        decreases to - i,
    {
        out.push(bytes[i]);
        assert(bytes@.subrange(from as int, i + 1) =~= bytes@.subrange(from as int, i as int).push(
            bytes@[i as int],
        ));
        i += 1;
    }
    out
}

/// Splits a text at its line feeds.
pub fn split_lines_bytes(text: &[u8]) -> (lines: Vec<Vec<u8>>)
    ensures
        lines@.len() == lines_of(text@).len(),
        forall|i: int| 0 <= i < lines@.len() ==> (#[trigger] lines@[i])@ == lines_of(text@)[i],
{
    let mut lines: Vec<Vec<u8>> = Vec::new();
    let ghost mut done: Seq<Seq<u8>> = Seq::empty();
    let mut start: usize = 0;
    let mut i: usize = 0;
    assert(text@.skip(0) =~= text@);
    while i < text.len()
        invariant
            0 <= start <= i <= text.len(),
            lines@.len() == done.len(),
            forall|k: int| 0 <= k < lines@.len() ==> (#[trigger] lines@[k])@ == done[k],
            lines_of(text@) == done + lines_of(text@.skip(start as int)),
            forall|j: int| start <= j < i ==> text@[j] != 10,
        decreases text.len() - i,
    {
        if text[i] == 10 {
            let line = piece(text, start, i);
            proof {
                let rest = text@.skip(start as int);
                assert(first_at(rest, 10, i - start));
                lemma_lines_split(rest, i - start);
                assert(rest.take(i - start) =~= text@.subrange(start as int, i as int));
                assert(rest.skip(i - start + 1) =~= text@.skip(i + 1));
                assert(done + (seq![rest.take(i - start)] + lines_of(text@.skip(i + 1))) =~= done.push(
                    line@,
                ) + lines_of(text@.skip(i + 1)));
                done = done.push(line@);
            }
            lines.push(line);
            start = i + 1;
        }
        i += 1;
    }
    let line = piece(text, start, text.len());
    proof {
        let rest = text@.skip(start as int);
        assert(rest =~= text@.subrange(start as int, text.len() as int));
        assert(!exists|k: int| first_at(rest, 10, k)) by {
            if exists|k: int| first_at(rest, 10, k) {
                let k = choose|k: int| first_at(rest, 10, k);
                assert(text@[start + k] == 10);
            }
        }
        assert(lines_of(rest) == seq![rest]);
        assert(done + seq![rest] =~= done.push(line@));
    }
    lines.push(line);
    lines
}

/// Splits a text at its line feeds.
pub fn split_lines(text: &str) -> (lines: Vec<Vec<u8>>)
    ensures
        lines@.len() == lines_of(text.spec_bytes()).len(),
        forall|i: int|
            0 <= i < lines@.len() ==> (#[trigger] lines@[i])@ == lines_of(text.spec_bytes())[i],
{
    split_lines_bytes(text.as_bytes())
}

/// Reads the edges that a text spells, one per line; none where a line
/// spells no edge.
pub fn parse_edges(text: &str) -> (r: Option<Vec<(u64, u64)>>)
    ensures
        match r {
            Some(edges) => edges_of(text.spec_bytes()) == Some(edges@),
            None => edges_of(text.spec_bytes()) is None,
        },
{
    let lines = split_lines(text);
    let ghost all = lines_of(text.spec_bytes());
    let mut edges: Vec<(u64, u64)> = Vec::new();
    let mut i: usize = 0;
    while i < lines.len()
        invariant
            0 <= i <= lines.len(),
            all == lines_of(text.spec_bytes()),
            lines@.len() == all.len(),
            forall|k: int| 0 <= k < lines@.len() ==> (#[trigger] lines@[k])@ == all[k],
            edges@.len() == i,
            forall|k: int| 0 <= k < i ==> edge_of(#[trigger] all[k]) == Some(edges@[k]),
        decreases lines.len() - i,
    {
        assert(lines@[i as int]@ == all[i as int]);
        match parse_edge_bytes(lines[i].as_slice()) {
            Some(edge) => {
                edges.push(edge);
            },
            None => {
                assert(edge_of(all[i as int]) is None);
                return None;
            },
        }
        i += 1;
    }
    proof {
        assert forall|k: int| 0 <= k < all.len() implies edge_of(#[trigger] all[k]) is Some by {
            assert(edge_of(all[k]) == Some(edges@[k]));
        }
        assert(edges@ =~= Seq::new(all.len(), |k: int| edge_of(all[k])->0));
    }
    Some(edges)
}

} // verus!
