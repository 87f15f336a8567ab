//! Reading and writing the tab-separated lines of a graph file.
use crate::graph::{fields_view, views, GfaError, Record, RecordView, SignedRef};
use vstd::prelude::*;

verus! {

pub const TAB: u8 = 9;

pub const COMMA: u8 = 44;

pub const PLUS: u8 = 43;

pub const MINUS: u8 = 45;

pub const GT: u8 = 62;

pub const LT: u8 = 60;

/// The pieces of `s` between separators, in order; `s` without a separator is
/// one piece.
pub open spec fn split(s: Seq<u8>, sep: u8) -> Seq<Seq<u8>>
    decreases s.len(),
{
    if s.len() == 0 {
        seq![Seq::empty()]
    } else {
        let prev = split(s.drop_last(), sep);
        if s.last() == sep {
            prev.push(Seq::empty())
        } else {
            prev.update(prev.len() - 1, prev.last().push(s.last()))
        }
    }
}

pub proof fn lemma_split_nonempty(s: Seq<u8>, sep: u8)
    ensures
        split(s, sep).len() >= 1,
    decreases s.len(),
{
    if s.len() > 0 {
        lemma_split_nonempty(s.drop_last(), sep);
    }
}

pub open spec fn is_digit(b: u8) -> bool {
    48 <= b <= 57
}

/// The number that a string of decimal digits spells.
pub open spec fn digits_value(s: Seq<u8>) -> nat
    decreases s.len(),
{
    if s.len() == 0 {
        0
    } else {
        digits_value(s.drop_last()) * 10 + (s.last() - 48) as nat
    }
}

/// A non-empty string of decimal digits whose value fits in 32 bits.
pub open spec fn parse_u32_spec(s: Seq<u8>) -> Option<u32> {
    if s.len() > 0 && (forall|i: int| 0 <= i < s.len() ==> is_digit(#[trigger] s[i])) && digits_value(
        s,
    ) <= u32::MAX {
        Some(digits_value(s) as u32)
    } else {
        None
    }
}

/// The decimal digits of `n`, without leading zeros.
pub open spec fn decimal(n: nat) -> Seq<u8>
    decreases n,
{
    if n < 10 {
        seq![(48 + n) as u8]
    } else {
        decimal(n / 10).push((48 + n % 10) as u8)
    }
}

/// A step of a path: an id followed by `+` or `-`.
pub open spec fn parse_path_step(s: Seq<u8>) -> Option<SignedRef> {
    if s.len() >= 2 && (s.last() == PLUS || s.last() == MINUS) {
        match parse_u32_spec(s.drop_last()) {
            Some(id) => Some(SignedRef { id, forward: s.last() == PLUS }),
            None => None,
        }
    } else {
        None
    }
}

/// All steps of a path, or `None` if one of them is malformed.
pub open spec fn parse_path_steps(items: Seq<Seq<u8>>) -> Option<Seq<SignedRef>>
    decreases items.len(),
{
    if items.len() == 0 {
        Some(Seq::empty())
    } else {
        match (parse_path_steps(items.drop_last()), parse_path_step(items.last())) {
            (Some(prev), Some(r)) => Some(prev.push(r)),
            _ => None,
        }
    }
}

/// The steps of a walk before their ids are read: each `>` or `<` opens a step
/// on the forward or reverse strand, and the bytes up to the next one are its id.
pub open spec fn walk_tokens(s: Seq<u8>) -> Option<Seq<(bool, Seq<u8>)>>
    decreases s.len(),
{
    if s.len() == 0 {
        Some(Seq::empty())
    } else {
        match walk_tokens(s.drop_last()) {
            None => None,
            Some(t) => if s.last() == GT {
                Some(t.push((true, Seq::empty())))
            } else if s.last() == LT {
                Some(t.push((false, Seq::empty())))
            } else if t.len() == 0 {
                None
            } else {
                Some(t.update(t.len() - 1, (t.last().0, t.last().1.push(s.last()))))
            },
        }
    }
}

pub open spec fn parse_walk_ids(t: Seq<(bool, Seq<u8>)>) -> Option<Seq<SignedRef>>
    decreases t.len(),
{
    if t.len() == 0 {
        Some(Seq::empty())
    } else {
        match (parse_walk_ids(t.drop_last()), parse_u32_spec(t.last().1)) {
            (Some(prev), Some(id)) => Some(prev.push(SignedRef { id, forward: t.last().0 })),
            _ => None,
        }
    }
}

/// All steps of a walk, or `None` if one of them is malformed.
pub open spec fn parse_walk_steps(s: Seq<u8>) -> Option<Seq<SignedRef>> {
    match walk_tokens(s) {
        Some(t) => parse_walk_ids(t),
        None => None,
    }
}

pub open spec fn parse_sign(s: Seq<u8>) -> Option<bool> {
    if s == seq![PLUS] {
        Some(true)
    } else if s == seq![MINUS] {
        Some(false)
    } else {
        None
    }
}

/// The record that a line holds, by its first byte: `S` id, sequence; `L` id,
/// sign, id, sign, overlap; `P` name, comma-separated steps; `W` sample,
/// haplotype, sequence id, start, end, walk; each followed by any further
/// fields, which are kept. A line of another kind is kept whole. `None` if a
/// field of a known kind is missing or malformed.
pub open spec fn parse_spec(line: Seq<u8>) -> Option<RecordView> {
    let f = split(line, TAB);
    if line.len() > 0 && line[0] == 83u8 {
        if f.len() >= 3 && parse_u32_spec(f[1]).is_some() {
            Some(
                RecordView::Segment {
                    id: parse_u32_spec(f[1]).unwrap(),
                    sequence: f[2],
                    tags: f.subrange(3, f.len() as int),
                },
            )
        } else {
            None
        }
    } else if line.len() > 0 && line[0] == 76u8 {
        if f.len() >= 6 && parse_u32_spec(f[1]).is_some() && parse_sign(f[2]).is_some()
            && parse_u32_spec(f[3]).is_some() && parse_sign(f[4]).is_some() {
            Some(
                RecordView::Link {
                    from: SignedRef {
                        id: parse_u32_spec(f[1]).unwrap(),
                        forward: parse_sign(f[2]).unwrap(),
                    },
                    to: SignedRef {
                        id: parse_u32_spec(f[3]).unwrap(),
                        forward: parse_sign(f[4]).unwrap(),
                    },
                    overlap: f[5],
                    tags: f.subrange(6, f.len() as int),
                },
            )
        } else {
            None
        }
    } else if line.len() > 0 && line[0] == 80u8 {
        if f.len() >= 3 && parse_path_steps(split(f[2], COMMA)).is_some() {
            Some(
                RecordView::Path {
                    name: f[1],
                    steps: parse_path_steps(split(f[2], COMMA)).unwrap(),
                    rest: f.subrange(3, f.len() as int),
                },
            )
        } else {
            None
        }
    } else if line.len() > 0 && line[0] == 87u8 {
        if f.len() >= 7 && parse_walk_steps(f[6]).is_some() {
            Some(
                RecordView::Walk {
                    sample: f[1],
                    hap_index: f[2],
                    seq_id: f[3],
                    start: f[4],
                    end: f[5],
                    steps: parse_walk_steps(f[6]).unwrap(),
                    tags: f.subrange(7, f.len() as int),
                },
            )
        } else {
            None
        }
    } else {
        Some(RecordView::Other { line })
    }
}


/// Copies of the fields from position `from` on.
pub fn copy_fields_from(f: &Vec<Vec<u8>>, from: usize) -> (r: Vec<Vec<u8>>)
    requires
        from <= f.len(),
    ensures
        fields_view(r@) == fields_view(f@).subrange(from as int, f@.len() as int),
{
    let mut r: Vec<Vec<u8>> = Vec::new();
    let mut i: usize = from;
    while i < f.len()
        invariant
            from <= i <= f.len(),
            fields_view(r@) == fields_view(f@).subrange(from as int, i as int),
        decreases f.len() - i,
    {
        let ghost before = fields_view(r@);
        r.push(crate::graph::copy_bytes(&f[i]));
        assert(fields_view(r@) =~= before.push(f@[i as int]@));
        i += 1;
        assert(fields_view(r@) =~= fields_view(f@).subrange(from as int, i as int));
    }
    r
}

/// Splits `s` at every separator.
pub fn split_bytes(s: &Vec<u8>, sep: u8) -> (r: Vec<Vec<u8>>)
    ensures
        fields_view(r@) == split(s@, sep),
{
    let mut fields: Vec<Vec<u8>> = Vec::new();
    let mut cur: Vec<u8> = Vec::new();
    let mut i: usize = 0;
    assert(s@.subrange(0, 0) =~= Seq::<u8>::empty());
    assert(fields_view(fields@).push(cur@) =~= split(s@.subrange(0, 0), sep));
    while i < s.len()
        invariant
            i <= s.len(),
            fields_view(fields@).push(cur@) == split(s@.subrange(0, i as int), sep),
        decreases s.len() - i,
    {
        let b = s[i];
        let ghost before = fields_view(fields@);
        let ghost cur_before = cur@;
        assert(s@.subrange(0, i + 1).drop_last() =~= s@.subrange(0, i as int));
        if b == sep {
            let done = cur;
            fields.push(done);
            cur = Vec::new();
            assert(fields_view(fields@) =~= before.push(cur_before));
        } else {
            cur.push(b);
            assert(fields_view(fields@).push(cur@) =~= before.push(cur_before).update(
                before.len() as int,
                cur_before.push(b),
            ));
        }
        i += 1;
    }
    assert(s@.subrange(0, s@.len() as int) =~= s@);
    let ghost before = fields_view(fields@);
    let ghost last = cur@;
    fields.push(cur);
    assert(fields_view(fields@) =~= before.push(last));
    fields
}

proof fn lemma_digits_monotone(s: Seq<u8>, j: int, k: int)
    requires
        0 <= j <= k <= s.len(),
        forall|i: int| 0 <= i < k ==> is_digit(#[trigger] s[i]),
    ensures
        digits_value(s.subrange(0, j)) <= digits_value(s.subrange(0, k)),
    decreases k - j,
{
    if j < k {
        lemma_digits_monotone(s, j, k - 1);
        assert(s.subrange(0, k).drop_last() =~= s.subrange(0, k - 1));
    }
}

/// The number that `s[start..end]` spells, if it is a non-empty string of
/// decimal digits whose value fits in 32 bits.
pub fn parse_u32_range(s: &Vec<u8>, start: usize, end: usize) -> (r: Option<u32>)
    requires
        start <= end <= s.len(),
    ensures
        r == parse_u32_spec(s@.subrange(start as int, end as int)),
{
    let ghost t = s@.subrange(start as int, end as int);
    if start == end {
        return None;
    }
    let mut acc: u64 = 0;
    let mut i: usize = start;
    assert(t.subrange(0, 0) =~= Seq::<u8>::empty());
    while i < end
        invariant
            start <= i <= end <= s.len(),
            t == s@.subrange(start as int, end as int),
            forall|j: int| 0 <= j < i - start ==> is_digit(#[trigger] t[j]),
            acc == digits_value(t.subrange(0, i - start)),
            acc <= u32::MAX,
        decreases end - i,
    {
        let b = s[i];
        if b < 48 || b > 57 {
            assert(!is_digit(t[i - start]));
            return None;
        }
        assert(t.subrange(0, i - start + 1).drop_last() =~= t.subrange(0, i - start));
        acc = acc * 10 + (b - 48) as u64;
        i += 1;
        if acc > 4294967295 {
            proof {
                if forall|j: int| 0 <= j < t.len() ==> is_digit(#[trigger] t[j]) {
                    lemma_digits_monotone(t, i - start, t.len() as int);
                    assert(t.subrange(0, t.len() as int) =~= t);
                }
            }
            return None;
        }
    }
    assert(t.subrange(0, t.len() as int) =~= t);
    Some(acc as u32)
}

/// Appends the decimal digits of `n`.
pub fn push_decimal(out: &mut Vec<u8>, n: u32)
    ensures
        final(out)@ == old(out)@ + decimal(n as nat),
    decreases n,
{
    if n < 10 {
        out.push(48 + n as u8);
        assert(final(out)@ =~= old(out)@ + decimal(n as nat));
    } else {
        push_decimal(out, n / 10);
        out.push(48 + (n % 10) as u8);
        assert(final(out)@ =~= old(out)@ + decimal(n as nat));
    }
}

fn parse_sign_field(f: &Vec<u8>) -> (r: Option<bool>)
    ensures
        r == parse_sign(f@),
{
    if f.len() == 1 && f[0] == PLUS {
        assert(f@ =~= seq![PLUS]);
        Some(true)
    } else if f.len() == 1 && f[0] == MINUS {
        assert(f@ =~= seq![MINUS]);
        Some(false)
    } else {
        assert(f@ != seq![PLUS] && f@ != seq![MINUS] || f@.len() == 1);
        None
    }
}

fn parse_path_item(item: &Vec<u8>) -> (r: Option<SignedRef>)
    ensures
        r == parse_path_step(item@),
{
    let n = item.len();
    if n < 2 {
        return None;
    }
    let last = item[n - 1];
    if last != PLUS && last != MINUS {
        return None;
    }
    assert(item@.subrange(0, n - 1) =~= item@.drop_last());
    match parse_u32_range(item, 0, n - 1) {
        Some(id) => Some(SignedRef { id, forward: last == PLUS }),
        None => None,
    }
}

/// The steps of a path field: comma-separated ids, each followed by its sign.
pub fn parse_path_field(field: &Vec<u8>) -> (r: Option<Vec<SignedRef>>)
    ensures
        match r {
            Some(v) => parse_path_steps(split(field@, COMMA)) == Some(v@),
            None => parse_path_steps(split(field@, COMMA)).is_none(),
        },
{
    let items = split_bytes(field, COMMA);
    let ghost iv = fields_view(items@);
    let mut steps: Vec<SignedRef> = Vec::new();
    let mut i: usize = 0;
    assert(iv.subrange(0, 0) =~= Seq::<Seq<u8>>::empty());
    while i < items.len()
        invariant
            i <= items.len(),
            iv == fields_view(items@),
            iv == split(field@, COMMA),
            parse_path_steps(iv.subrange(0, i as int)) == Some(steps@),
        decreases items.len() - i,
    {
        assert(iv.subrange(0, i + 1).drop_last() =~= iv.subrange(0, i as int));
        assert(iv.subrange(0, i + 1).last() == items@[i as int]@);
        match parse_path_item(&items[i]) {
            Some(r) => steps.push(r),
            None => {
                proof {
                    lemma_steps_none_extends(iv, i as int + 1);
                }
                return None;
            },
        }
        i += 1;
    }
    assert(iv.subrange(0, iv.len() as int) =~= iv);
    Some(steps)
}

proof fn lemma_steps_none_extends(items: Seq<Seq<u8>>, k: int)
    requires
        0 <= k <= items.len(),
        parse_path_steps(items.subrange(0, k)).is_none(),
    ensures
        parse_path_steps(items).is_none(),
    decreases items.len() - k,
{
    if k < items.len() {
        assert(items.subrange(0, k + 1).drop_last() =~= items.subrange(0, k));
        lemma_steps_none_extends(items, k + 1);
    } else {
        assert(items.subrange(0, k) =~= items);
    }
}

pub open spec fn token_views(t: Seq<(bool, Vec<u8>)>) -> Seq<(bool, Seq<u8>)> {
    t.map_values(|p: (bool, Vec<u8>)| (p.0, p.1@))
}

proof fn lemma_tokens_none_extends(s: Seq<u8>, k: int)
    requires
        0 <= k <= s.len(),
        walk_tokens(s.subrange(0, k)).is_none(),
    ensures
        walk_tokens(s).is_none(),
    decreases s.len() - k,
{
    if k < s.len() {
        assert(s.subrange(0, k + 1).drop_last() =~= s.subrange(0, k));
        lemma_tokens_none_extends(s, k + 1);
    } else {
        assert(s.subrange(0, k) =~= s);
    }
}

proof fn lemma_ids_none_extends(t: Seq<(bool, Seq<u8>)>, k: int)
    requires
        0 <= k <= t.len(),
        parse_walk_ids(t.subrange(0, k)).is_none(),
    ensures
        parse_walk_ids(t).is_none(),
    decreases t.len() - k,
{
    if k < t.len() {
        assert(t.subrange(0, k + 1).drop_last() =~= t.subrange(0, k));
        lemma_ids_none_extends(t, k + 1);
    } else {
        assert(t.subrange(0, k) =~= t);
    }
}

/// The steps of a walk field: each `>` or `<` followed by an id.
pub fn parse_walk_field(field: &Vec<u8>) -> (r: Option<Vec<SignedRef>>)
    ensures
        match r {
            Some(v) => parse_walk_steps(field@) == Some(v@),
            None => parse_walk_steps(field@).is_none(),
        },
{
    let mut tokens: Vec<(bool, Vec<u8>)> = Vec::new();
    let mut i: usize = 0;
    assert(field@.subrange(0, 0) =~= Seq::<u8>::empty());
    assert(token_views(tokens@) =~= Seq::empty());
    while i < field.len()
        invariant
            i <= field.len(),
            walk_tokens(field@.subrange(0, i as int)) == Some(token_views(tokens@)),
        decreases field.len() - i,
    {
        let b = field[i];
        let ghost before = token_views(tokens@);
        assert(field@.subrange(0, i + 1).drop_last() =~= field@.subrange(0, i as int));
        assert(field@.subrange(0, i + 1).last() == b);
        if b == GT || b == LT {
            tokens.push((b == GT, Vec::new()));
            assert(token_views(tokens@) =~= before.push((b == GT, Seq::empty())));
        } else {
            match tokens.pop() {
                None => {
                    proof {
                        lemma_tokens_none_extends(field@, i + 1);
                    }
                    return None;
                },
                Some(last) => {
                    let (forward, mut digits) = last;
                    digits.push(b);
                    tokens.push((forward, digits));
                    assert(token_views(tokens@) =~= before.update(
                        before.len() - 1,
                        (before.last().0, before.last().1.push(b)),
                    ));
                },
            }
        }
        i += 1;
    }
    assert(field@.subrange(0, field@.len() as int) =~= field@);
    let ghost tv = token_views(tokens@);
    let mut steps: Vec<SignedRef> = Vec::new();
    let mut k: usize = 0;
    assert(tv.subrange(0, 0) =~= Seq::<(bool, Seq<u8>)>::empty());
    while k < tokens.len()
        invariant
            k <= tokens.len(),
            tv == token_views(tokens@),
            walk_tokens(field@) == Some(tv),
            parse_walk_ids(tv.subrange(0, k as int)) == Some(steps@),
        decreases tokens.len() - k,
    {
        let digits = &tokens[k].1;
        let forward = tokens[k].0;
        assert(tv.subrange(0, k + 1).drop_last() =~= tv.subrange(0, k as int));
        assert(tv.subrange(0, k + 1).last() == (forward, digits@));
        assert(digits@.subrange(0, digits@.len() as int) =~= digits@);
        match parse_u32_range(digits, 0, digits.len()) {
            Some(id) => steps.push(SignedRef { id, forward }),
            None => {
                proof {
                    lemma_ids_none_extends(tv, k + 1);
                }
                return None;
            },
        }
        k += 1;
    }
    assert(tv.subrange(0, tv.len() as int) =~= tv);
    Some(steps)
}

/// Reads one line (without its line break); a malformed line of a known kind
/// is a format error at `line_no`.
pub fn parse_record(line: &Vec<u8>, line_no: usize) -> (r: Result<Record, GfaError>)
    ensures
        match r {
            Ok(rec) => parse_spec(line@) == Some(rec@),
            Err(e) => parse_spec(line@).is_none() && e == (GfaError::Format { line: line_no }),
        },
{
    let bad = Err(GfaError::Format { line: line_no });
    if line.len() == 0 {
        assert(line@ =~= Seq::<u8>::empty());
        return Ok(Record::Other { line: Vec::new() });
    }
    let kind = line[0];
    if kind != 83u8 && kind != 76u8 && kind != 80u8 && kind != 87u8 {
        return Ok(Record::Other { line: crate::graph::copy_bytes(line) });
    }
    let f = split_bytes(line, TAB);
    proof {
        lemma_split_nonempty(line@, TAB);
    }
    let n = f.len();
    if kind == 83u8 {
        if n < 3 {
            return bad;
        }
        assert(f[1]@.subrange(0, f[1]@.len() as int) =~= f[1]@);
        match parse_u32_range(&f[1], 0, f[1].len()) {
            Some(id) => {
                let tags = copy_fields_from(&f, 3);
                Ok(Record::Segment { id, sequence: crate::graph::copy_bytes(&f[2]), tags })
            },
            None => bad,
        }
    } else if kind == 76u8 {
        if n < 6 {
            return bad;
        }
        assert(f[1]@.subrange(0, f[1]@.len() as int) =~= f[1]@);
        assert(f[3]@.subrange(0, f[3]@.len() as int) =~= f[3]@);
        let a = parse_u32_range(&f[1], 0, f[1].len());
        let sa = parse_sign_field(&f[2]);
        let b = parse_u32_range(&f[3], 0, f[3].len());
        let sb = parse_sign_field(&f[4]);
        match (a, sa, b, sb) {
            (Some(a), Some(sa), Some(b), Some(sb)) => Ok(
                Record::Link {
                    from: SignedRef { id: a, forward: sa },
                    to: SignedRef { id: b, forward: sb },
                    overlap: crate::graph::copy_bytes(&f[5]),
                    tags: copy_fields_from(&f, 6),
                },
            ),
            _ => bad,
        }
    } else if kind == 80u8 {
        if n < 3 {
            return bad;
        }
        match parse_path_field(&f[2]) {
            Some(steps) => {
                let rest = copy_fields_from(&f, 3);
                Ok(Record::Path { name: crate::graph::copy_bytes(&f[1]), steps, rest })
            },
            None => bad,
        }
    } else {
        if n < 7 {
            return bad;
        }
        match parse_walk_field(&f[6]) {
            Some(steps) => Ok(
                Record::Walk {
                    sample: crate::graph::copy_bytes(&f[1]),
                    hap_index: crate::graph::copy_bytes(&f[2]),
                    seq_id: crate::graph::copy_bytes(&f[3]),
                    start: crate::graph::copy_bytes(&f[4]),
                    end: crate::graph::copy_bytes(&f[5]),
                    steps,
                    tags: copy_fields_from(&f, 7),
                },
            ),
            None => bad,
        }
    }
}

/// The records of the lines, in order, or the format error of the first
/// malformed line (numbered from one).
pub fn parse_graph(lines: &Vec<Vec<u8>>) -> (r: Result<Vec<Record>, GfaError>)
    requires
        lines.len() < usize::MAX,
    ensures
        match r {
            Ok(recs) => recs@.len() == lines@.len() && forall|i: int|
                0 <= i < lines@.len() ==> parse_spec(#[trigger] lines@[i]@) == Some(recs@[i]@),
            Err(e) => exists|k: int|
                0 <= k < lines@.len() && parse_spec(#[trigger] lines@[k]@).is_none() && e == (
                GfaError::Format { line: (k + 1) as usize }) && forall|j: int|
                    0 <= j < k ==> parse_spec(#[trigger] lines@[j]@).is_some(),
        },
{
    let mut recs: Vec<Record> = Vec::new();
    let mut i: usize = 0;
    while i < lines.len()
        invariant
            i <= lines.len() < usize::MAX,
            recs@.len() == i,
            forall|j: int| 0 <= j < i ==> parse_spec(#[trigger] lines@[j]@) == Some(recs@[j]@),
        decreases lines.len() - i,
    {
        match parse_record(&lines[i], i + 1) {
            Ok(rec) => recs.push(rec),
            Err(e) => {
                assert(parse_spec(lines@[i as int]@).is_none());
                return Err(e);
            },
        }
        i += 1;
    }
    Ok(recs)
}

pub open spec fn sign_text(forward: bool) -> Seq<u8> {
    if forward {
        seq![PLUS]
    } else {
        seq![MINUS]
    }
}

pub open spec fn step_text(r: SignedRef) -> Seq<u8> {
    decimal(r.id as nat) + sign_text(r.forward)
}

/// Path steps joined by commas.
pub open spec fn path_text(steps: Seq<SignedRef>) -> Seq<u8>
    decreases steps.len(),
{
    if steps.len() == 0 {
        Seq::empty()
    } else if steps.len() == 1 {
        step_text(steps[0])
    } else {
        path_text(steps.drop_last()) + seq![COMMA] + step_text(steps.last())
    }
}

/// Walk steps, each opened by `>` or `<`.
pub open spec fn walk_text(steps: Seq<SignedRef>) -> Seq<u8>
    decreases steps.len(),
{
    if steps.len() == 0 {
        Seq::empty()
    } else {
        walk_text(steps.drop_last()) + seq![
            if steps.last().forward {
                GT
            } else {
                LT
            },
        ] + decimal(steps.last().id as nat)
    }
}

/// Tag fields, each after a tab.
pub open spec fn tags_text(tags: Seq<Seq<u8>>) -> Seq<u8>
    decreases tags.len(),
{
    if tags.len() == 0 {
        Seq::empty()
    } else {
        tags_text(tags.drop_last()) + seq![TAB] + tags.last()
    }
}

/// The line that holds a record.
pub open spec fn render(r: RecordView) -> Seq<u8> {
    match r {
        RecordView::Segment { id, sequence, tags } => seq![83u8, TAB] + decimal(id as nat) + seq![TAB]
            + sequence + tags_text(tags),
        RecordView::Link { from, to, overlap, tags } => seq![76u8, TAB] + decimal(from.id as nat)
            + seq![TAB] + sign_text(from.forward) + seq![TAB] + decimal(to.id as nat) + seq![TAB]
            + sign_text(to.forward) + seq![TAB] + overlap + tags_text(tags),
        RecordView::Path { name, steps, rest } => seq![80u8, TAB] + name + seq![TAB] + path_text(
            steps,
        ) + tags_text(rest),
        RecordView::Walk { sample, hap_index, seq_id, start, end, steps, tags } => seq![87u8, TAB]
            + sample + seq![TAB] + hap_index + seq![TAB] + seq_id + seq![TAB] + start + seq![TAB]
            + end + seq![TAB] + walk_text(steps) + tags_text(tags),
        RecordView::Other { line } => line,
    }
}

pub(crate) fn push_all(out: &mut Vec<u8>, s: &Vec<u8>)
    ensures
        final(out)@ == old(out)@ + s@,
{
    let mut i: usize = 0;
    while i < s.len()
        invariant
            i <= s.len(),
            out@ == old(out)@ + s@.subrange(0, i as int),
        decreases s.len() - i,
    {
        out.push(s[i]);
        i += 1;
        assert(out@ =~= old(out)@ + s@.subrange(0, i as int));
    }
    assert(s@.subrange(0, s@.len() as int) =~= s@);
}

fn push_sign(out: &mut Vec<u8>, forward: bool)
    ensures
        final(out)@ == old(out)@ + sign_text(forward),
{
    out.push(if forward {
        PLUS
    } else {
        MINUS
    });
    assert(out@ =~= old(out)@ + sign_text(forward));
}

pub(crate) fn push_byte(out: &mut Vec<u8>, b: u8)
    ensures
        final(out)@ == old(out)@ + seq![b],
{
    out.push(b);
    assert(out@ =~= old(out)@ + seq![b]);
}

fn write_path_steps(out: &mut Vec<u8>, steps: &Vec<SignedRef>)
    ensures
        final(out)@ == old(out)@ + path_text(steps@),
{
    let ghost mid = out@;
    let mut i: usize = 0;
    assert(steps@.subrange(0, 0) =~= Seq::<SignedRef>::empty());
    assert(out@ =~= mid + path_text(steps@.subrange(0, 0)));
    while i < steps.len()
        invariant
            i <= steps.len(),
            out@ == mid + path_text(steps@.subrange(0, i as int)),
        decreases steps.len() - i,
    {
        assert(steps@.subrange(0, i + 1).drop_last() =~= steps@.subrange(0, i as int));
        if i > 0 {
            push_byte(out, COMMA);
        }
        push_decimal(out, steps[i].id);
        push_sign(out, steps[i].forward);
        i += 1;
        assert(out@ =~= mid + path_text(steps@.subrange(0, i as int)));
    }
    assert(steps@.subrange(0, steps@.len() as int) =~= steps@);
}

fn write_walk_steps(out: &mut Vec<u8>, steps: &Vec<SignedRef>)
    ensures
        final(out)@ == old(out)@ + walk_text(steps@),
{
    let ghost mid = out@;
    let mut i: usize = 0;
    assert(steps@.subrange(0, 0) =~= Seq::<SignedRef>::empty());
    assert(out@ =~= mid + walk_text(steps@.subrange(0, 0)));
    while i < steps.len()
        invariant
            i <= steps.len(),
            out@ == mid + walk_text(steps@.subrange(0, i as int)),
        decreases steps.len() - i,
    {
        assert(steps@.subrange(0, i + 1).drop_last() =~= steps@.subrange(0, i as int));
        push_byte(out, if steps[i].forward {
            GT
        } else {
            LT
        });
        push_decimal(out, steps[i].id);
        i += 1;
        assert(out@ =~= mid + walk_text(steps@.subrange(0, i as int)));
    }
    assert(steps@.subrange(0, steps@.len() as int) =~= steps@);
}

fn write_tags(out: &mut Vec<u8>, tags: &Vec<Vec<u8>>)
    ensures
        final(out)@ == old(out)@ + tags_text(fields_view(tags@)),
{
    let ghost mid = out@;
    let mut i: usize = 0;
    assert(fields_view(tags@).subrange(0, 0) =~= Seq::<Seq<u8>>::empty());
    assert(out@ =~= mid + tags_text(fields_view(tags@).subrange(0, 0)));
    while i < tags.len()
        invariant
            i <= tags.len(),
            out@ == mid + tags_text(fields_view(tags@).subrange(0, i as int)),
        decreases tags.len() - i,
    {
        assert(fields_view(tags@).subrange(0, i + 1).drop_last() =~= fields_view(tags@).subrange(
            0,
            i as int,
        ));
        push_byte(out, TAB);
        push_all(out, &tags[i]);
        i += 1;
        assert(out@ =~= mid + tags_text(fields_view(tags@).subrange(0, i as int)));
    }
    assert(fields_view(tags@).subrange(0, tags@.len() as int) =~= fields_view(tags@));
}

fn write_segment(out: &mut Vec<u8>, id: u32, sequence: &Vec<u8>, tags: &Vec<Vec<u8>>)
    ensures
        final(out)@ == old(out)@ + render(
            RecordView::Segment { id, sequence: sequence@, tags: fields_view(tags@) },
        ),
{
    push_byte(out, 83u8);
    push_byte(out, TAB);
    push_decimal(out, id);
    push_byte(out, TAB);
    push_all(out, sequence);
    write_tags(out, tags);
    assert(out@ =~= old(out)@ + render(
        RecordView::Segment { id, sequence: sequence@, tags: fields_view(tags@) },
    ));
}

fn write_link(out: &mut Vec<u8>, from: SignedRef, to: SignedRef, overlap: &Vec<u8>, tags: &Vec<Vec<u8>>)
    ensures
        final(out)@ == old(out)@ + render(
            RecordView::Link { from, to, overlap: overlap@, tags: fields_view(tags@) },
        ),
{
    push_byte(out, 76u8);
    push_byte(out, TAB);
    push_decimal(out, from.id);
    push_byte(out, TAB);
    push_sign(out, from.forward);
    push_byte(out, TAB);
    push_decimal(out, to.id);
    push_byte(out, TAB);
    push_sign(out, to.forward);
    push_byte(out, TAB);
    push_all(out, overlap);
    write_tags(out, tags);
    assert(out@ =~= old(out)@ + render(
        RecordView::Link { from, to, overlap: overlap@, tags: fields_view(tags@) },
    ));
}

fn write_path(out: &mut Vec<u8>, name: &Vec<u8>, steps: &Vec<SignedRef>, rest: &Vec<Vec<u8>>)
    ensures
        final(out)@ == old(out)@ + render(
            RecordView::Path { name: name@, steps: steps@, rest: fields_view(rest@) },
        ),
{
    push_byte(out, 80u8);
    push_byte(out, TAB);
    push_all(out, name);
    push_byte(out, TAB);
    write_path_steps(out, steps);
    write_tags(out, rest);
    assert(out@ =~= old(out)@ + render(
        RecordView::Path { name: name@, steps: steps@, rest: fields_view(rest@) },
    ));
}

fn write_walk(out: &mut Vec<u8>, rec: &Record)
    requires
        rec is Walk,
    ensures
        final(out)@ == old(out)@ + render(rec@),
{
    match rec {
        Record::Walk { sample, hap_index, seq_id, start, end, steps, tags } => {
            push_byte(out, 87u8);
            push_byte(out, TAB);
            push_all(out, sample);
            push_byte(out, TAB);
            push_all(out, hap_index);
            push_byte(out, TAB);
            push_all(out, seq_id);
            push_byte(out, TAB);
            push_all(out, start);
            push_byte(out, TAB);
            push_all(out, end);
            push_byte(out, TAB);
            write_walk_steps(out, steps);
            write_tags(out, tags);
            assert(out@ =~= old(out)@ + render(rec@));
        },
        _ => {},
    }
}

/// Appends the line that holds a record.
pub fn write_record(out: &mut Vec<u8>, rec: &Record)
    ensures
        final(out)@ == old(out)@ + render(rec@),
{
    match rec {
        Record::Segment { id, sequence, tags } => write_segment(out, *id, sequence, tags),
        Record::Link { from, to, overlap, tags } => write_link(out, *from, *to, overlap, tags),
        Record::Path { name, steps, rest } => write_path(out, name, steps, rest),
        Record::Walk { .. } => write_walk(out, rec),
        Record::Other { line } => push_all(out, line),
    }
}

/// Every record on a line of its own.
pub open spec fn graph_text(recs: Seq<RecordView>) -> Seq<u8>
    decreases recs.len(),
{
    if recs.len() == 0 {
        Seq::empty()
    } else {
        graph_text(recs.drop_last()) + render(recs.last()) + seq![10u8]
    }
}

/// The text of a graph: every record on a line of its own.
pub fn write_graph(records: &Vec<Record>) -> (out: Vec<u8>)
    ensures
        out@ == graph_text(views(records@)),
{
    let mut out: Vec<u8> = Vec::new();
    let mut i: usize = 0;
    assert(views(records@).subrange(0, 0) =~= Seq::<RecordView>::empty());
    while i < records.len()
        invariant
            i <= records.len(),
            out@ == graph_text(views(records@).subrange(0, i as int)),
        decreases records.len() - i,
    {
        assert(views(records@).subrange(0, i + 1).drop_last() =~= views(records@).subrange(
            0,
            i as int,
        ));
        write_record(&mut out, &records[i]);
        push_byte(&mut out, 10u8);
        i += 1;
    }
    assert(views(records@).subrange(0, records@.len() as int) =~= views(records@));
    out
}

} // verus!
