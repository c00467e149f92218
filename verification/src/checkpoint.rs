//! Byte layout of optimizer checkpoints: a magic tag, the rules, the number
//! of entries, every memoized state with its bounds, and an FNV-1a checksum,
//! all integers little-endian.
use vstd::prelude::*;

use crate::keymap::{lex_lt, KeyMap};
use crate::optimal::{ids_below, lex_sorted, theoretical_lower_spec, Entry, Node};

verus! {

/// The low `k` bytes of `v`, least significant first.
pub open spec fn le_bytes(v: nat, k: nat) -> Seq<u8>
    decreases k,
{
    if k == 0 {
        Seq::empty()
    } else {
        seq![(v % 256) as u8] + le_bytes(v / 256, (k - 1) as nat)
    }
}

/// The number that little-endian bytes `b` stand for.
pub open spec fn le_value(b: Seq<u8>) -> nat
    decreases b.len(),
{
    if b.len() == 0 {
        0
    } else {
        b[0] as nat + 256 * le_value(b.drop_first())
    }
}

/// 64-bit FNV-1a over `b`, from state `h`.
pub open spec fn fnv_from(h: u64, b: Seq<u8>) -> u64
    decreases b.len(),
{
    if b.len() == 0 {
        h
    } else {
        fnv_from((h ^ (b[0] as u64)).wrapping_mul(0x100000001b3u64), b.drop_first())
    }
}

/// 64-bit FNV-1a checksum of `b`.
pub open spec fn fnv(b: Seq<u8>) -> u64 {
    fnv_from(0xcbf29ce484222325u64, b)
}

/// The tag `GSEXACT1` that starts a checkpoint.
pub open spec fn magic() -> Seq<u8> {
    seq![71u8, 83u8, 69u8, 88u8, 65u8, 67u8, 84u8, 49u8]
}

/// Candidate ids, two bytes each.
pub open spec fn ids_bytes(c: Seq<u16>) -> Seq<u8>
    decreases c.len(),
{
    if c.len() == 0 {
        Seq::empty()
    } else {
        ids_bytes(c.drop_last()) + le_bytes(c.last() as nat, 2)
    }
}

/// One memoized state: its size and ids, its lower bound in four bytes,
/// then 0 or else 1 followed by the strategy's guess, total and worst case.
pub open spec fn entry_bytes(c: Seq<u16>, e: Entry) -> Seq<u8> {
    le_bytes(c.len(), 2) + ids_bytes(c) + le_bytes(e.lower as nat, 4) + match e.upper {
        None => seq![0u8],
        Some(nd) => seq![1u8] + le_bytes(nd.guess as nat, 2) + le_bytes(nd.total as nat, 4) + le_bytes(
            nd.worst as nat,
            2,
        ),
    }
}

/// The entries of the states `ks` of `m`, in that order.
pub open spec fn entries_bytes(ks: Seq<Seq<u16>>, m: Map<Seq<u16>, Entry>) -> Seq<u8>
    decreases ks.len(),
{
    if ks.len() == 0 {
        Seq::empty()
    } else {
        entries_bytes(ks.drop_last(), m) + entry_bytes(ks.last(), m[ks.last()])
    }
}

/// A checkpoint without its checksum.
pub open spec fn checkpoint_body(colors: u8, slots: u8, ks: Seq<Seq<u16>>, m: Map<Seq<u16>, Entry>) -> Seq<u8> {
    magic() + seq![colors, slots] + le_bytes(ks.len(), 8) + entries_bytes(ks, m)
}

/// A whole checkpoint: the body and its checksum.
pub open spec fn checkpoint_spec(colors: u8, slots: u8, ks: Seq<Seq<u16>>, m: Map<Seq<u16>, Entry>) -> Seq<u8> {
    checkpoint_body(colors, slots, ks, m) + le_bytes(fnv(checkpoint_body(colors, slots, ks, m)) as nat, 8)
}

/// Reasons a checkpoint is refused.
#[derive(Debug, Clone, Copy, PartialEq, Eq, Structural)]
pub enum CheckpointError {
    Invalid,
    ChecksumMismatch,
    RulesMismatch,
    Truncated,
    InvalidEntryCount,
    InvalidCandidates,
    InvalidCandidateIds,
    InvalidUpperFlag,
    InvalidBounds,
    DuplicateState,
    TrailingData,
}

pub open spec fn checkpoint_error_text(e: CheckpointError) -> Seq<char> {
    match e {
        CheckpointError::Invalid => "invalid checkpoint"@,
        CheckpointError::ChecksumMismatch => "checkpoint checksum mismatch"@,
        CheckpointError::RulesMismatch => "checkpoint rules mismatch"@,
        CheckpointError::Truncated => "truncated checkpoint"@,
        CheckpointError::InvalidEntryCount => "invalid entry count"@,
        CheckpointError::InvalidCandidates => "invalid candidates"@,
        CheckpointError::InvalidCandidateIds => "invalid candidate ids"@,
        CheckpointError::InvalidUpperFlag => "invalid upper bound flag"@,
        CheckpointError::InvalidBounds => "invalid bounds"@,
        CheckpointError::DuplicateState => "duplicate state"@,
        CheckpointError::TrailingData => "unexpected trailing data"@,
    }
}

impl CheckpointError {
    pub fn message(&self) -> (s: &'static str)
        ensures
            s@ == checkpoint_error_text(*self),
    {
        match self {
            CheckpointError::Invalid => "invalid checkpoint",
            CheckpointError::ChecksumMismatch => "checkpoint checksum mismatch",
            CheckpointError::RulesMismatch => "checkpoint rules mismatch",
            CheckpointError::Truncated => "truncated checkpoint",
            CheckpointError::InvalidEntryCount => "invalid entry count",
            CheckpointError::InvalidCandidates => "invalid candidates",
            CheckpointError::InvalidCandidateIds => "invalid candidate ids",
            CheckpointError::InvalidUpperFlag => "invalid upper bound flag",
            CheckpointError::InvalidBounds => "invalid bounds",
            CheckpointError::DuplicateState => "duplicate state",
            CheckpointError::TrailingData => "unexpected trailing data",
        }
    }
}

/// The little-endian number in the `k` bytes of `data` from `pos`.
pub open spec fn field(data: Seq<u8>, pos: nat, k: nat) -> nat {
    le_value(data.subrange(pos as int, (pos + k) as int))
}

/// Ids in strictly increasing order.
pub open spec fn strictly_increasing(c: Seq<u16>) -> bool {
    forall|i: int| 0 <= i < c.len() - 1 ==> #[trigger] c[i] < c[i + 1]
}

/// The `len` two-byte ids of `data` from `pos`.
pub open spec fn read_ids(data: Seq<u8>, pos: nat, len: nat) -> Seq<u16> {
    Seq::new(len, |i: int| field(data, (pos + 2 * i) as nat, 2) as u16)
}

/// Bounds a checkpoint may hold for a state of `len` candidates out of `n`:
/// a lower bound between the counting bound and `len * (len + 1) / 2`, and
/// a strategy no cheaper than it, with a guess of the space and a worst case
/// between 1 and `len`.
pub open spec fn valid_bounds(len: nat, lower: nat, upper: Option<Node>, n: nat, branches: nat) -> bool {
    &&& theoretical_lower_spec(len, branches) <= lower
    &&& lower <= len * (len + 1) / 2
    &&& upper matches Some(nd) ==> lower <= nd.total && (nd.guess as nat) < n && 1 <= nd.worst <= len && nd.total
        < usize::MAX
}

/// Reads the entry at `pos`: the state, its bounds and where the next entry
/// starts.
#[verifier::opaque]
pub open spec fn parse_entry(data: Seq<u8>, pos: nat, n: nat, branches: nat) -> Result<
    (Seq<u16>, Entry, nat),
    CheckpointError,
> {
    if pos + 2 > data.len() {
        Err(CheckpointError::Truncated)
    } else {
        let len = field(data, pos, 2);
        if len == 0 || len > n {
            Err(CheckpointError::InvalidCandidates)
        } else if pos + 2 + 2 * len > data.len() {
            Err(CheckpointError::Truncated)
        } else {
            let c = read_ids(data, pos + 2, len);
            if !(ids_below(c, n) && strictly_increasing(c)) {
                Err(CheckpointError::InvalidCandidateIds)
            } else {
                let p = pos + 2 + 2 * len;
                if p + 5 > data.len() {
                    Err(CheckpointError::Truncated)
                } else {
                    let lower = field(data, p, 4);
                    let flag = data[(p + 4) as int];
                    if flag > 1 {
                        Err(CheckpointError::InvalidUpperFlag)
                    } else if flag == 1 && p + 13 > data.len() {
                        Err(CheckpointError::Truncated)
                    } else {
                        let upper = if flag == 0 {
                            None
                        } else {
                            Some(
                                Node {
                                    guess: field(data, p + 5, 2) as u16,
                                    total: field(data, p + 7, 4) as usize,
                                    worst: field(data, p + 11, 2) as usize,
                                },
                            )
                        };
                        if !valid_bounds(len, lower, upper, n, branches) {
                            Err(CheckpointError::InvalidBounds)
                        } else {
                            Ok((c, Entry { lower: lower as usize, upper }, (p + 5 + 8 * flag) as nat))
                        }
                    }
                }
            }
        }
    }
}

/// Reads `count` entries from `pos` into `acc`, refusing a state read twice.
pub open spec fn parse_entries(
    data: Seq<u8>,
    pos: nat,
    count: nat,
    n: nat,
    branches: nat,
    acc: Map<Seq<u16>, Entry>,
) -> Result<(Map<Seq<u16>, Entry>, nat), CheckpointError>
    decreases count,
{
    if count == 0 {
        Ok((acc, pos))
    } else {
        match parse_entry(data, pos, n, branches) {
            Err(e) => Err(e),
            Ok((c, e, next)) => if acc.contains_key(c) {
                Err(CheckpointError::DuplicateState)
            } else {
                parse_entries(data, next, (count - 1) as nat, n, branches, acc.insert(c, e))
            },
        }
    }
}

/// The entries read, provided they end exactly at `end`.
pub open spec fn finish_entries(r: Result<(Map<Seq<u16>, Entry>, nat), CheckpointError>, end: nat) -> Result<
    Map<Seq<u16>, Entry>,
    CheckpointError,
> {
    match r {
        Err(e) => Err(e),
        Ok((m, stop)) => if stop != end {
            Err(CheckpointError::TrailingData)
        } else {
            Ok(m)
        },
    }
}

/// The memoized bounds a checkpoint holds for a game of `n` codes with the
/// given rules, or why it is refused.
pub open spec fn decode_spec(bytes: Seq<u8>, colors: u8, slots: u8, n: nat, branches: nat) -> Result<
    Map<Seq<u16>, Entry>,
    CheckpointError,
> {
    if bytes.len() < 26 || bytes.take(8) != magic() {
        Err(CheckpointError::Invalid)
    } else {
        let data = bytes.take(bytes.len() - 8);
        if fnv(data) as nat != field(bytes, (bytes.len() - 8) as nat, 8) {
            Err(CheckpointError::ChecksumMismatch)
        } else if data[8] != colors || data[9] != slots {
            Err(CheckpointError::RulesMismatch)
        } else {
            let count = (field(data, 10, 8) as usize) as nat;
            if count > data.len() / 9 {
                Err(CheckpointError::InvalidEntryCount)
            } else {
                finish_entries(parse_entries(data, 18, count, n, branches, Map::empty()), data.len())
            }
        }
    }
}

/// Appends the low `k` bytes of `v`, least significant first.
fn push_le(out: &mut Vec<u8>, v: u64, k: usize)
    ensures
        final(out)@ == old(out)@ + le_bytes(v as nat, k as nat),
{
    let mut x: u64 = v;
    let mut i: usize = 0;
    while i < k
        invariant
            i <= k,
            out@ + le_bytes(x as nat, (k - i) as nat) == old(out)@ + le_bytes(v as nat, k as nat),
        decreases k - i,
    {
        let ghost before = out@;
        assert(le_bytes(x as nat, (k - i) as nat) == seq![(x % 256) as u8] + le_bytes((x / 256) as nat, (k - i - 1) as nat));
        out.push((x % 256) as u8);
        assert(out@ + le_bytes((x / 256) as nat, (k - i - 1) as nat) =~= before + le_bytes(x as nat, (k - i) as nat));
        x = x / 256;
        i += 1;
    }
    assert(out@ + le_bytes(x as nat, 0) =~= out@);
}

proof fn lemma_le_value_bound(b: Seq<u8>)
    ensures
        le_value(b) < crate::solver::power(256, b.len()),
    decreases b.len(),
{
    if b.len() > 0 {
        lemma_le_value_bound(b.drop_first());
        assert(crate::solver::power(256, b.len()) == 256 * crate::solver::power(256, (b.len() - 1) as nat));
    }
}

/// The little-endian number in the `k` bytes of `data` from `pos`.
fn read_le(data: &[u8], pos: usize, k: usize) -> (v: u64)
    requires
        k <= 8,
        pos + k <= data@.len(),
    ensures
        v as nat == field(data@, pos as nat, k as nat),
{
    let size = data.len();
    let mut v: u64 = 0;
    let mut i: usize = k;
    proof {
        reveal_with_fuel(crate::solver::power, 9);
    }
    while i > 0
        invariant
            i <= k <= 8,
            pos + k <= data@.len(),
            size == data@.len(),
            v as nat == le_value(data@.subrange(pos + i, pos + k)),
            (v as nat) < crate::solver::power(256, (k - i) as nat),
            crate::solver::power(256, 8) == 0x1_0000_0000_0000_0000nat,
        decreases i,
    {
        let ghost tail = data@.subrange(pos + i, pos + k);
        let ghost longer = data@.subrange(pos + i - 1, pos + k);
        assert(longer.drop_first() =~= tail);
        assert(longer[0] == data@[pos + i - 1]);
        assert(crate::solver::power(256, (k - i + 1) as nat) == 256 * crate::solver::power(256, (k - i) as nat));
        proof {
            lemma_power_256_mono((k - i + 1) as nat, 8);
        }
        let b = data[pos + (i - 1)];
        v = v * 256 + b as u64;
        i -= 1;
    }
    v
}

proof fn lemma_power_256_mono(a: nat, b: nat)
    requires
        a <= b,
    ensures
        crate::solver::power(256, a) <= crate::solver::power(256, b),
    decreases b,
{
    if a < b {
        lemma_power_256_mono(a, (b - 1) as nat);
        assert(crate::solver::power(256, b) == 256 * crate::solver::power(256, (b - 1) as nat));
    }
}

/// 64-bit FNV-1a checksum of the first `len` bytes of `bytes`.
fn checksum(bytes: &[u8], len: usize) -> (h: u64)
    requires
        len <= bytes@.len(),
    ensures
        h == fnv(bytes@.take(len as int)),
{
    let ghost data = bytes@.take(len as int);
    let mut h: u64 = 0xcbf29ce484222325;
    let mut i: usize = 0;
    assert(data.skip(0) =~= data);
    while i < len
        invariant
            i <= len <= bytes@.len(),
            data == bytes@.take(len as int),
            fnv_from(h, data.skip(i as int)) == fnv(data),
        decreases len - i,
    {
        assert(data.skip(i as int).drop_first() =~= data.skip(i + 1));
        assert(data.skip(i as int)[0] == bytes@[i as int]);
        h = (h ^ bytes[i] as u64).wrapping_mul(0x100000001b3);
        i += 1;
    }
    assert(data.skip(i as int) =~= Seq::<u8>::empty());
    h
}

/// Appends the entry of state `c` with bounds `e`.
fn push_entry(out: &mut Vec<u8>, c: &Vec<u16>, e: &Entry)
    ensures
        final(out)@ == old(out)@ + entry_bytes(c@, *e),
{
    push_le(out, c.len() as u64, 2);
    let ghost head = out@;
    let mut j: usize = 0;
    assert(c@.take(0) =~= Seq::<u16>::empty());
    while j < c.len()
        invariant
            j <= c@.len(),
            out@ == head + ids_bytes(c@.take(j as int)),
        decreases c@.len() - j,
    {
        assert(c@.take(j + 1).drop_last() =~= c@.take(j as int));
        assert(c@.take(j + 1).last() == c@[j as int]);
        push_le(out, c[j] as u64, 2);
        assert(out@ =~= head + ids_bytes(c@.take(j + 1)));
        j += 1;
    }
    assert(c@.take(c@.len() as int) =~= c@);
    push_le(out, e.lower as u64, 4);
    match e.upper {
        None => {
            out.push(0u8);
        },
        Some(nd) => {
            out.push(1u8);
            push_le(out, nd.guess as u64, 2);
            push_le(out, nd.total as u64, 4);
            push_le(out, nd.worst as u64, 2);
        },
    }
    assert(out@ =~= old(out)@ + entry_bytes(c@, *e));
}

/// The checkpoint of the memoized bounds `memo` under the given rules, its
/// states in increasing order.
pub(crate) fn encode_checkpoint(colors: u8, slots: u8, memo: &KeyMap<Entry>) -> (bytes: Vec<u8>)
    requires
        memo.wf(),
    ensures
        exists|ks: Seq<Seq<u16>>| lex_sorted(ks) && (forall|k: Seq<u16>| #[trigger] ks.contains(k)
            <==> memo.view().contains_key(k)) && bytes@ == checkpoint_spec(colors, slots, ks, memo.view()),
{
    proof {
        memo.lemma_entries();
    }
    let ghost ks = memo.key_seq();
    let mut out: Vec<u8> = Vec::new();
    out.push(71u8);
    out.push(83u8);
    out.push(69u8);
    out.push(88u8);
    out.push(65u8);
    out.push(67u8);
    out.push(84u8);
    out.push(49u8);
    out.push(colors);
    out.push(slots);
    let count = memo.len();
    push_le(&mut out, count as u64, 8);
    let ghost head = out@;
    assert(head =~= magic() + seq![colors, slots] + le_bytes(ks.len(), 8));
    let mut i: usize = 0;
    assert(ks.take(0) =~= Seq::<Seq<u16>>::empty());
    while i < count
        invariant
            memo.wf(),
            ks == memo.key_seq(),
            count == ks.len(),
            ks.len() == memo.value_seq().len(),
            forall|q: int| 0 <= q < ks.len() ==> memo.view().contains_key(#[trigger] ks[q]) && memo.view()[ks[q]]
                == memo.value_seq()[q],
            i <= count,
            out@ == head + entries_bytes(ks.take(i as int), memo.view()),
        decreases count - i,
    {
        let key = memo.key_at(i);
        let e = memo.value_at(i);
        assert(ks.take(i + 1).drop_last() =~= ks.take(i as int));
        assert(ks.take(i + 1).last() == ks[i as int]);
        assert(memo.view()[ks[i as int]] == *e);
        push_entry(&mut out, key, e);
        assert(out@ =~= head + entries_bytes(ks.take(i + 1), memo.view()));
        i += 1;
    }
    assert(ks.take(count as int) =~= ks);
    let body_len = out.len();
    let ghost body = out@;
    assert(body =~= checkpoint_body(colors, slots, ks, memo.view()));
    let h = checksum(out.as_slice(), body_len);
    assert(out@.take(body_len as int) =~= out@);
    push_le(&mut out, h, 8);
    assert(out@ == checkpoint_spec(colors, slots, ks, memo.view()));
    assert(lex_sorted(ks));
    proof {
        assert forall|k: Seq<u16>| #[trigger] ks.contains(k) <==> memo.view().contains_key(k) by {
            if ks.contains(k) {
                let q = choose|q: int| 0 <= q < ks.len() && ks[q] == k;
                assert(memo.view().contains_key(ks[q]));
            }
        }
    }
    out
}


/// Bytes of `bytes` below `limit` read from `pos` are the same as in the
/// prefix of length `limit`.
proof fn lemma_field_prefix(bytes: Seq<u8>, limit: nat, pos: nat, k: nat)
    requires
        pos + k <= limit <= bytes.len(),
    ensures
        field(bytes.take(limit as int), pos, k) == field(bytes, pos, k),
{
    assert(bytes.take(limit as int).subrange(pos as int, (pos + k) as int) =~= bytes.subrange(pos as int, (pos + k) as int));
}

/// Reads the entry at `pos` of the first `limit` bytes.
#[verifier::spinoff_prover]
#[verifier::rlimit(50)]
fn read_entry(bytes: &[u8], limit: usize, pos: usize, n: usize, floor: &Vec<usize>, Ghost(branches): Ghost<nat>) -> (r: Result<
    (Vec<u16>, Entry, usize),
    CheckpointError,
>)
    requires
        limit <= bytes@.len(),
        pos <= limit,
        1 <= n <= 1296,
        floor@.len() == n + 1,
        forall|l: int| 0 <= l <= n ==> #[trigger] floor@[l] == theoretical_lower_spec(l as nat, branches),
    ensures
        r matches Ok((c, e, next)) ==> parse_entry(bytes@.take(limit as int), pos as nat, n as nat, branches) == Ok::<
            (Seq<u16>, Entry, nat),
            CheckpointError,
        >((c@, e, next as nat)) && next <= limit,
        r matches Err(err) ==> parse_entry(bytes@.take(limit as int), pos as nat, n as nat, branches) == Err::<
            (Seq<u16>, Entry, nat),
            CheckpointError,
        >(err),
{
    reveal(parse_entry);
    let ghost data = bytes@.take(limit as int);
    if limit - pos < 2 {
        return Err(CheckpointError::Truncated);
    }
    proof {
        lemma_field_prefix(bytes@, limit as nat, pos as nat, 2);
        lemma_le_value_bound(bytes@.subrange(pos as int, pos + 2));
        reveal_with_fuel(crate::solver::power, 3);
    }
    let len = read_le(bytes, pos, 2) as usize;
    if len == 0 || len > n {
        return Err(CheckpointError::InvalidCandidates);
    }
    if limit - pos - 2 < 2 * len {
        return Err(CheckpointError::Truncated);
    }
    let start = pos + 2;
    let mut c: Vec<u16> = Vec::new();
    let mut j: usize = 0;
    while j < len
        invariant
            limit <= bytes@.len(),
            data == bytes@.take(limit as int),
            start == pos + 2,
            start + 2 * len <= limit,
            j <= len,
            c@ =~= read_ids(data, start as nat, len as nat).take(j as int),
        decreases len - j,
    {
        proof {
            lemma_field_prefix(bytes@, limit as nat, (start + 2 * j) as nat, 2);
            lemma_le_value_bound(bytes@.subrange(start + 2 * j, start + 2 * j + 2));
            reveal_with_fuel(crate::solver::power, 3);
        }
        let id = read_le(bytes, start + 2 * j, 2) as u16;
        c.push(id);
        j += 1;
    }
    assert(read_ids(data, start as nat, len as nat).take(len as int) =~= read_ids(data, start as nat, len as nat));
    let mut ok = true;
    let mut q: usize = 0;
    while q < len
        invariant
            c@.len() == len,
            q <= len,
            ok <==> (forall|i: int| 0 <= i < q ==> (#[trigger] c@[i] as nat) < n) && (forall|i: int|
                0 <= i < q && i < c@.len() - 1 ==> #[trigger] c@[i] < c@[i + 1]),
        decreases len - q,
    {
        if c[q] as usize >= n || (q + 1 < len && c[q] >= c[q + 1]) {
            ok = false;
        }
        q += 1;
    }
    if !ok {
        return Err(CheckpointError::InvalidCandidateIds);
    }
    let p = start + 2 * len;
    if limit - p < 5 {
        return Err(CheckpointError::Truncated);
    }
    proof {
        lemma_field_prefix(bytes@, limit as nat, p as nat, 4);
        lemma_le_value_bound(bytes@.subrange(p as int, p + 4));
        reveal_with_fuel(crate::solver::power, 5);
    }
    let lower = read_le(bytes, p, 4) as usize;
    let flag = bytes[p + 4];
    assert(data[p + 4] == flag);
    if flag > 1 {
        return Err(CheckpointError::InvalidUpperFlag);
    }
    if flag == 1 && limit - p < 13 {
        return Err(CheckpointError::Truncated);
    }
    let upper = if flag == 0 {
        None
    } else {
        proof {
            lemma_field_prefix(bytes@, limit as nat, (p + 5) as nat, 2);
            lemma_field_prefix(bytes@, limit as nat, (p + 7) as nat, 4);
            lemma_field_prefix(bytes@, limit as nat, (p + 11) as nat, 2);
            lemma_le_value_bound(bytes@.subrange(p + 5, p + 7));
            lemma_le_value_bound(bytes@.subrange(p + 7, p + 11));
            lemma_le_value_bound(bytes@.subrange(p + 11, p + 13));
            reveal_with_fuel(crate::solver::power, 5);
        }
        Some(
            Node {
                guess: read_le(bytes, p + 5, 2) as u16,
                total: read_le(bytes, p + 7, 4) as usize,
                worst: read_le(bytes, p + 11, 2) as usize,
            },
        )
    };
    let floor_len = floor[len];
    assert(len * (len + 1) <= 1296 * 1297) by (nonlinear_arith)
        requires
            len <= 1296,
    ;
    let bad = lower < floor_len || lower > len * (len + 1) / 2 || match upper {
        Some(nd) => nd.total < lower || nd.guess as usize >= n || nd.worst == 0 || nd.worst > len || nd.total
            == usize::MAX,
        None => false,
    };
    if bad {
        return Err(CheckpointError::InvalidBounds);
    }
    let next = if flag == 0 {
        p + 5
    } else {
        p + 13
    };
    Ok((c, Entry { lower, upper }, next))
}

/// Reads a checkpoint for a game of `n` codes with the given rules; `floor`
/// holds the counting bound of every size up to `n`.
pub(crate) fn decode_checkpoint(
    bytes: &[u8],
    colors: u8,
    slots: u8,
    n: usize,
    floor: &Vec<usize>,
    Ghost(branches): Ghost<nat>,
) -> (r: Result<KeyMap<Entry>, CheckpointError>)
    requires
        1 <= n <= 1296,
        floor@.len() == n + 1,
        forall|l: int| 0 <= l <= n ==> #[trigger] floor@[l] == theoretical_lower_spec(l as nat, branches),
    ensures
        r matches Ok(m) ==> m.wf() && decode_spec(bytes@, colors, slots, n as nat, branches) == Ok::<
            Map<Seq<u16>, Entry>,
            CheckpointError,
        >(m.view()),
        r matches Err(e) ==> decode_spec(bytes@, colors, slots, n as nat, branches) == Err::<
            Map<Seq<u16>, Entry>,
            CheckpointError,
        >(e),
{
    let size = bytes.len();
    if size < 26 {
        return Err(CheckpointError::Invalid);
    }
    let tagged = bytes[0] == 71u8 && bytes[1] == 83u8 && bytes[2] == 69u8 && bytes[3] == 88u8 && bytes[4] == 65u8
        && bytes[5] == 67u8 && bytes[6] == 84u8 && bytes[7] == 49u8;
    if !tagged {
        proof {
            if bytes@.take(8) == magic() {
                assert(bytes@.take(8)[0] == bytes@[0]);
                assert(bytes@.take(8)[1] == bytes@[1]);
                assert(bytes@.take(8)[2] == bytes@[2]);
                assert(bytes@.take(8)[3] == bytes@[3]);
                assert(bytes@.take(8)[4] == bytes@[4]);
                assert(bytes@.take(8)[5] == bytes@[5]);
                assert(bytes@.take(8)[6] == bytes@[6]);
                assert(bytes@.take(8)[7] == bytes@[7]);
            }
        }
        return Err(CheckpointError::Invalid);
    }
    assert(bytes@.take(8) =~= magic());
    let limit = size - 8;
    let ghost data = bytes@.take(limit as int);
    let stored = read_le(bytes, limit, 8);
    if checksum(bytes, limit) != stored {
        return Err(CheckpointError::ChecksumMismatch);
    }
    assert(data[8] == bytes@[8] && data[9] == bytes@[9]);
    if bytes[8] != colors || bytes[9] != slots {
        return Err(CheckpointError::RulesMismatch);
    }
    proof {
        lemma_field_prefix(bytes@, limit as nat, 10, 8);
    }
    let count = #[verifier::truncate] (read_le(bytes, 10, 8) as usize);
    if count > limit / 9 {
        return Err(CheckpointError::InvalidEntryCount);
    }
    let mut memo: KeyMap<Entry> = KeyMap::new();
    let mut pos: usize = 18;
    let mut i: usize = 0;
    assert(memo.view() =~= Map::<Seq<u16>, Entry>::empty());
    assert(decode_spec(bytes@, colors, slots, n as nat, branches) == finish_entries(
        parse_entries(data, 18, count as nat, n as nat, branches, Map::empty()),
        data.len(),
    ));
    while i < count
        invariant
            decode_spec(bytes@, colors, slots, n as nat, branches) == finish_entries(
                parse_entries(data, 18, count as nat, n as nat, branches, Map::empty()),
                data.len(),
            ),
            data.len() == limit,
            limit <= bytes@.len(),
            data == bytes@.take(limit as int),
            1 <= n <= 1296,
            floor@.len() == n + 1,
            forall|l: int| 0 <= l <= n ==> #[trigger] floor@[l] == theoretical_lower_spec(l as nat, branches),
            i <= count,
            pos <= limit,
            memo.wf(),
            parse_entries(data, 18, count as nat, n as nat, branches, Map::empty()) == parse_entries(
                data,
                pos as nat,
                (count - i) as nat,
                n as nat,
                branches,
                memo.view(),
            ),
        decreases count - i,
    {
        match read_entry(bytes, limit, pos, n, floor, Ghost(branches)) {
            Err(e) => {
                return Err(e);
            },
            Ok((c, e, next)) => {
                if memo.contains_key(c.as_slice()) {
                    return Err(CheckpointError::DuplicateState);
                }
                memo.insert(c, e);
                pos = next;
            },
        }
        i += 1;
    }
    if pos != limit {
        return Err(CheckpointError::TrailingData);
    }
    Ok(memo)
}


/// Memoized states that a game of `n` codes can hold: non-empty sets of its
/// ids, each strategy with a guess of the space, a worst case no larger than
/// the set and a total below `usize::MAX`.
pub open spec fn valid_memo(m: Map<Seq<u16>, Entry>, n: nat) -> bool {
    forall|k: Seq<u16>| #[trigger] m.contains_key(k) ==> ids_below(k, n) && 1 <= k.len() <= n && (m[k].upper matches Some(
        nd,
    ) ==> (nd.guess as nat) < n && nd.worst <= k.len() && nd.total < usize::MAX)
}

/// Everything a checkpoint holds is a valid memoized state.
pub proof fn lemma_parse_entries_valid(
    data: Seq<u8>,
    pos: nat,
    count: nat,
    n: nat,
    branches: nat,
    acc: Map<Seq<u16>, Entry>,
)
    requires
        valid_memo(acc, n),
        parse_entries(data, pos, count, n, branches, acc) is Ok,
    ensures
        valid_memo(parse_entries(data, pos, count, n, branches, acc)->Ok_0.0, n),
    decreases count,
{
    if count > 0 {
        reveal(parse_entry);
        let (c, e, next) = parse_entry(data, pos, n, branches)->Ok_0;
        assert(valid_memo(acc.insert(c, e), n));
        lemma_parse_entries_valid(data, next, (count - 1) as nat, n, branches, acc.insert(c, e));
    }
}


/// Every memoized bound is at least the counting bound for its size.
pub open spec fn floored_memo(m: Map<Seq<u16>, Entry>, branches: nat) -> bool {
    forall|k: Seq<u16>| #[trigger] m.contains_key(k) ==> theoretical_lower_spec(k.len(), branches) <= m[k].lower
}

/// Every state a checkpoint holds lists its ids in increasing order.
pub open spec fn ordered_memo(m: Map<Seq<u16>, Entry>) -> bool {
    forall|k: Seq<u16>| #[trigger] m.contains_key(k) ==> strictly_increasing(k)
}

/// The states a checkpoint holds are in increasing id order.
pub proof fn lemma_parse_entries_ordered(
    data: Seq<u8>,
    pos: nat,
    count: nat,
    n: nat,
    branches: nat,
    acc: Map<Seq<u16>, Entry>,
)
    requires
        ordered_memo(acc),
        parse_entries(data, pos, count, n, branches, acc) is Ok,
    ensures
        ordered_memo(parse_entries(data, pos, count, n, branches, acc)->Ok_0.0),
    decreases count,
{
    if count > 0 {
        reveal(parse_entry);
        let (c, e, next) = parse_entry(data, pos, n, branches)->Ok_0;
        assert forall|k: Seq<u16>| #[trigger] acc.insert(c, e).contains_key(k) implies strictly_increasing(k) by {
            if k != c {
                assert(acc.contains_key(k));
            }
        }
        lemma_parse_entries_ordered(data, next, (count - 1) as nat, n, branches, acc.insert(c, e));
    }
}

/// Every bound a checkpoint holds is at least the counting bound.
pub proof fn lemma_parse_entries_floored(
    data: Seq<u8>,
    pos: nat,
    count: nat,
    n: nat,
    branches: nat,
    acc: Map<Seq<u16>, Entry>,
)
    requires
        floored_memo(acc, branches),
        parse_entries(data, pos, count, n, branches, acc) is Ok,
    ensures
        floored_memo(parse_entries(data, pos, count, n, branches, acc)->Ok_0.0, branches),
    decreases count,
{
    if count > 0 {
        reveal(parse_entry);
        let (c, e, next) = parse_entry(data, pos, n, branches)->Ok_0;
        let len = field(data, pos, 2);
        let p = pos + 2 + 2 * len;
        let lower = field(data, p, 4);
        assert(c.len() == len);
        assert(valid_bounds(len, lower, e.upper, n, branches));
        lemma_le_value_bound(data.subrange(pos as int, (pos + 2) as int));
        assert(crate::solver::power(256, 2) == 65536) by {
            reveal_with_fuel(crate::solver::power, 3);
        }
        assert(len < 65536);
        assert(len * (len + 1) / 2 < 0x1_0000_0000) by (nonlinear_arith)
            requires
                len < 65536,
        ;
        assert(e.lower as nat == lower);
        assert forall|k: Seq<u16>| #[trigger] acc.insert(c, e).contains_key(k) implies theoretical_lower_spec(k.len(), branches)
            <= acc.insert(c, e)[k].lower by {
            if k != c {
                assert(acc.contains_key(k));
            }
        }
        lemma_parse_entries_floored(data, next, (count - 1) as nat, n, branches, acc.insert(c, e));
    }
}

proof fn lemma_le_bytes_len(v: nat, k: nat)
    ensures
        le_bytes(v, k).len() == k,
    decreases k,
{
    if k > 0 {
        lemma_le_bytes_len(v / 256, (k - 1) as nat);
    }
}

/// Little-endian bytes read back as their number when it fits.
proof fn lemma_le_round_trip(v: nat, k: nat)
    requires
        v < crate::solver::power(256, k),
    ensures
        le_value(le_bytes(v, k)) == v,
    decreases k,
{
    if k > 0 {
        assert(crate::solver::power(256, k) == 256 * crate::solver::power(256, (k - 1) as nat));
        assert(v / 256 < crate::solver::power(256, (k - 1) as nat)) by (nonlinear_arith)
            requires
                v < 256 * crate::solver::power(256, (k - 1) as nat),
        ;
        lemma_le_round_trip(v / 256, (k - 1) as nat);
        let b = le_bytes(v, k);
        assert(b.drop_first() =~= le_bytes(v / 256, (k - 1) as nat));
        assert(b[0] as nat == v % 256);
    } else {
        assert(v == 0);
    }
}

/// The number written at `p` in `k` bytes reads back from there.
proof fn lemma_field_at(x: Seq<u8>, v: nat, k: nat, y: Seq<u8>)
    requires
        v < crate::solver::power(256, k),
    ensures
        field(x + le_bytes(v, k) + y, x.len(), k) == v,
{
    lemma_le_bytes_len(v, k);
    assert((x + le_bytes(v, k) + y).subrange(x.len() as int, (x.len() + k) as int) =~= le_bytes(v, k));
    lemma_le_round_trip(v, k);
}

proof fn lemma_ids_bytes(c: Seq<u16>)
    ensures
        ids_bytes(c).len() == 2 * c.len(),
        forall|i: int| 0 <= i < c.len() ==> ids_bytes(c).subrange(2 * i, 2 * i + 2) == le_bytes(#[trigger] c[i] as nat, 2),
    decreases c.len(),
{
    if c.len() > 0 {
        lemma_ids_bytes(c.drop_last());
        lemma_le_bytes_len(c.last() as nat, 2);
        let prev = ids_bytes(c.drop_last());
        assert forall|i: int| 0 <= i < c.len() implies ids_bytes(c).subrange(2 * i, 2 * i + 2) == le_bytes(
            #[trigger] c[i] as nat,
            2,
        ) by {
            if i < c.len() - 1 {
                assert(ids_bytes(c).subrange(2 * i, 2 * i + 2) =~= prev.subrange(2 * i, 2 * i + 2));
                assert(c.drop_last()[i] == c[i]);
            } else {
                assert(ids_bytes(c).subrange(2 * i, 2 * i + 2) =~= le_bytes(c.last() as nat, 2));
            }
        }
    }
}

/// A state and bounds that a checkpoint can hold and read back unchanged:
/// what the loader accepts, with numbers that fit their fields.
pub open spec fn valid_entry(c: Seq<u16>, e: Entry, n: nat, branches: nat) -> bool {
    &&& 1 <= c.len() <= n
    &&& ids_below(c, n)
    &&& strictly_increasing(c)
    &&& valid_bounds(c.len(), e.lower as nat, e.upper, n, branches)
    &&& e.lower < 0x1_0000_0000
    &&& e.upper matches Some(nd) ==> nd.total < 0x1_0000_0000
}

proof fn lemma_entry_len(c: Seq<u16>, e: Entry)
    ensures
        entry_bytes(c, e).len() == 2 + 2 * c.len() + 5 + if e.upper is Some {
            8int
        } else {
            0int
        },
{
    lemma_le_bytes_len(c.len(), 2);
    lemma_ids_bytes(c);
    lemma_le_bytes_len(e.lower as nat, 4);
    match e.upper {
        None => {},
        Some(nd) => {
            lemma_le_bytes_len(nd.guess as nat, 2);
            lemma_le_bytes_len(nd.total as nat, 4);
            lemma_le_bytes_len(nd.worst as nat, 2);
        },
    }
}

/// Bytes of `e` read inside `x + e + y` are the bytes of `e`.
proof fn lemma_sub(x: Seq<u8>, e: Seq<u8>, y: Seq<u8>, a: int, b: int)
    requires
        0 <= a <= b <= e.len(),
    ensures
        (x + e + y).subrange(x.len() + a, x.len() + b) == e.subrange(a, b),
{
    assert((x + e + y).subrange(x.len() + a, x.len() + b) =~= e.subrange(a, b));
}

/// A number stored in `k` bytes at `p` reads back.
proof fn lemma_field_in(data: Seq<u8>, p: nat, v: nat, k: nat)
    requires
        p + k <= data.len(),
        data.subrange(p as int, (p + k) as int) == le_bytes(v, k),
        v < crate::solver::power(256, k),
    ensures
        field(data, p, k) == v,
{
    lemma_le_round_trip(v, k);
}

/// Where each field of an entry lies.
#[verifier::rlimit(30)]
proof fn lemma_entry_pieces(c: Seq<u16>, e: Entry)
    ensures
        entry_bytes(c, e).subrange(0, 2) == le_bytes(c.len(), 2),
        forall|i: int| 0 <= i < c.len() ==> entry_bytes(c, e).subrange(2 + 2 * i, 4 + 2 * i) == le_bytes(
            #[trigger] c[i] as nat,
            2,
        ),
        entry_bytes(c, e).subrange(2 + 2 * (c.len() as int), 6 + 2 * (c.len() as int)) == le_bytes(e.lower as nat, 4),
        entry_bytes(c, e)[6 + 2 * (c.len() as int)] == if e.upper is Some {
            1u8
        } else {
            0u8
        },
        e.upper matches Some(nd) ==> entry_bytes(c, e).subrange(7 + 2 * (c.len() as int), 9 + 2 * (c.len() as int)) == le_bytes(
            nd.guess as nat,
            2,
        ) && entry_bytes(c, e).subrange(9 + 2 * (c.len() as int), 13 + 2 * (c.len() as int)) == le_bytes(nd.total as nat, 4)
            && entry_bytes(c, e).subrange(13 + 2 * (c.len() as int), 15 + 2 * (c.len() as int)) == le_bytes(nd.worst as nat, 2),
{
    let lenb = le_bytes(c.len(), 2);
    let idb = ids_bytes(c);
    let lowb = le_bytes(e.lower as nat, 4);
    lemma_le_bytes_len(c.len(), 2);
    lemma_ids_bytes(c);
    lemma_le_bytes_len(e.lower as nat, 4);
    let head = lenb + idb + lowb;
    let tail = match e.upper {
        None => seq![0u8],
        Some(nd) => seq![1u8] + le_bytes(nd.guess as nat, 2) + le_bytes(nd.total as nat, 4) + le_bytes(nd.worst as nat, 2),
    };
    let eb = entry_bytes(c, e);
    assert(eb == head + tail);
    assert(eb.subrange(0, 2) =~= lenb);
    assert forall|i: int| 0 <= i < c.len() implies eb.subrange(2 + 2 * i, 4 + 2 * i) == le_bytes(#[trigger] c[i] as nat, 2) by {
        assert(eb.subrange(2 + 2 * i, 4 + 2 * i) =~= idb.subrange(2 * i, 2 * i + 2));
    }
    assert(eb.subrange(2 + 2 * (c.len() as int), 6 + 2 * (c.len() as int)) =~= lowb);
    assert(eb[6 + 2 * (c.len() as int)] == tail[0]);
    match e.upper {
        None => {},
        Some(nd) => {
            let gb = le_bytes(nd.guess as nat, 2);
            let tb = le_bytes(nd.total as nat, 4);
            let wb = le_bytes(nd.worst as nat, 2);
            lemma_le_bytes_len(nd.guess as nat, 2);
            lemma_le_bytes_len(nd.total as nat, 4);
            lemma_le_bytes_len(nd.worst as nat, 2);
            assert(eb =~= head + seq![1u8] + gb + tb + wb);
            assert(eb.subrange(7 + 2 * (c.len() as int), 9 + 2 * (c.len() as int)) =~= gb);
            assert(eb.subrange(9 + 2 * (c.len() as int), 13 + 2 * (c.len() as int)) =~= tb);
            assert(eb.subrange(13 + 2 * (c.len() as int), 15 + 2 * (c.len() as int)) =~= wb);
        },
    }
}

/// The fields of an entry written inside `x + e + y` read back.
#[verifier::rlimit(30)]
proof fn lemma_entry_fields(x: Seq<u8>, c: Seq<u16>, e: Entry, y: Seq<u8>)
    requires
        c.len() < 65536,
        e.lower < 0x1_0000_0000,
        e.upper matches Some(nd) ==> nd.total < 0x1_0000_0000 && nd.worst < 65536,
    ensures
        ({
            let data = x + entry_bytes(c, e) + y;
            let p0 = x.len();
            let p = p0 + 2 + 2 * c.len();
            &&& field(data, p0, 2) == c.len()
            &&& read_ids(data, p0 + 2, c.len()) == c
            &&& field(data, p, 4) == e.lower
            &&& data[(p + 4) as int] == if e.upper is Some {
                1u8
            } else {
                0u8
            }
            &&& e.upper matches Some(nd) ==> field(data, (p + 5) as nat, 2) == nd.guess && field(data, (p + 7) as nat, 4) == nd.total
                && field(data, (p + 11) as nat, 2) == nd.worst
        }),
{
    reveal_with_fuel(crate::solver::power, 5);
    let eb = entry_bytes(c, e);
    let data = x + eb + y;
    let p0 = x.len();
    let len = c.len() as int;
    let p = p0 + 2 + 2 * len;
    lemma_entry_len(c, e);
    lemma_entry_pieces(c, e);
    lemma_sub(x, eb, y, 0, 2);
    lemma_field_in(data, p0, len as nat, 2);
    assert forall|i: int| 0 <= i < len implies #[trigger] read_ids(data, p0 + 2, len as nat)[i] == c[i] by {
        lemma_sub(x, eb, y, 2 + 2 * i, 4 + 2 * i);
        lemma_field_in(data, (p0 + 2 + 2 * i) as nat, c[i] as nat, 2);
    }
    assert(read_ids(data, p0 + 2, len as nat) =~= c);
    lemma_sub(x, eb, y, 2 + 2 * len, 6 + 2 * len);
    lemma_field_in(data, p as nat, e.lower as nat, 4);
    assert(data[p + 4] == eb[6 + 2 * len]);
    match e.upper {
        None => {},
        Some(nd) => {
            lemma_sub(x, eb, y, 7 + 2 * len, 9 + 2 * len);
            lemma_field_in(data, (p + 5) as nat, nd.guess as nat, 2);
            lemma_sub(x, eb, y, 9 + 2 * len, 13 + 2 * len);
            lemma_field_in(data, (p + 7) as nat, nd.total as nat, 4);
            lemma_sub(x, eb, y, 13 + 2 * len, 15 + 2 * len);
            lemma_field_in(data, (p + 11) as nat, nd.worst as nat, 2);
        },
    }
}

/// An entry written between any bytes reads back as itself.
#[verifier::rlimit(30)]
#[verifier::spinoff_prover]
proof fn lemma_parse_entry_bytes(x: Seq<u8>, c: Seq<u16>, e: Entry, y: Seq<u8>, n: nat, branches: nat)
    requires
        n <= 1296,
        valid_entry(c, e, n, branches),
    ensures
        parse_entry(x + entry_bytes(c, e) + y, x.len(), n, branches) == Ok::<(Seq<u16>, Entry, nat), CheckpointError>(
            (c, e, x.len() + entry_bytes(c, e).len()),
        ),
{
    reveal(parse_entry);
    lemma_entry_len(c, e);
    lemma_entry_fields(x, c, e, y);
}

proof fn lemma_entries_split(ks: Seq<Seq<u16>>, m: Map<Seq<u16>, Entry>, j: int)
    requires
        0 <= j <= ks.len(),
    ensures
        entries_bytes(ks, m) == entries_bytes(ks.take(j), m) + entries_bytes(ks.skip(j), m),
    decreases ks.len(),
{
    if j == ks.len() {
        assert(ks.take(j) =~= ks);
        assert(ks.skip(j) =~= Seq::<Seq<u16>>::empty());
        assert(entries_bytes(ks, m) + Seq::<u8>::empty() =~= entries_bytes(ks, m));
    } else {
        lemma_entries_split(ks.drop_last(), m, j);
        assert(ks.drop_last().take(j) =~= ks.take(j));
        assert(ks.skip(j).drop_last() =~= ks.drop_last().skip(j));
        assert(ks.skip(j).last() == ks.last());
        assert(entries_bytes(ks, m) =~= entries_bytes(ks.take(j), m) + entries_bytes(ks.skip(j), m));
    }
}

proof fn lemma_entries_first(ks: Seq<Seq<u16>>, m: Map<Seq<u16>, Entry>)
    requires
        ks.len() >= 1,
    ensures
        entries_bytes(ks, m) == entry_bytes(ks[0], m[ks[0]]) + entries_bytes(ks.drop_first(), m),
{
    lemma_entries_split(ks, m, 1);
    assert(ks.take(1).drop_last() =~= Seq::<Seq<u16>>::empty());
    assert(ks.take(1).last() == ks[0]);
    assert(ks.skip(1) =~= ks.drop_first());
    assert(entries_bytes(ks.take(1).drop_last(), m) =~= Seq::<u8>::empty());
    assert(entries_bytes(ks.take(1), m) =~= entry_bytes(ks[0], m[ks[0]]));
}

proof fn lemma_entries_len(ks: Seq<Seq<u16>>, m: Map<Seq<u16>, Entry>)
    requires
        forall|i: int| 0 <= i < ks.len() ==> (#[trigger] ks[i]).len() >= 1,
    ensures
        entries_bytes(ks, m).len() >= 9 * ks.len(),
    decreases ks.len(),
{
    if ks.len() > 0 {
        assert forall|i: int| 0 <= i < ks.drop_last().len() implies (#[trigger] ks.drop_last()[i]).len() >= 1 by {
            assert(ks.drop_last()[i] == ks[i]);
        }
        lemma_entries_len(ks.drop_last(), m);
        assert(ks.last() == ks[ks.len() - 1]);
        lemma_entry_len(ks.last(), m[ks.last()]);
    }
}

/// The entries of the first `k` states.
pub open spec fn first_entries(ks: Seq<Seq<u16>>, m: Map<Seq<u16>, Entry>, k: int) -> Map<Seq<u16>, Entry> {
    Map::new(|key: Seq<u16>| exists|j: int| 0 <= j < k && ks[j] == key, |key: Seq<u16>| m[key])
}

/// Where the entry of state `i` starts in a checkpoint body with header `head`.
pub open spec fn entry_offset(head: Seq<u8>, ks: Seq<Seq<u16>>, m: Map<Seq<u16>, Entry>, i: int) -> nat {
    (head.len() + entries_bytes(ks.take(i), m).len()) as nat
}

proof fn lemma_written_step(head: Seq<u8>, ks: Seq<Seq<u16>>, m: Map<Seq<u16>, Entry>, n: nat, branches: nat, i: int)
    requires
        0 <= i < ks.len(),
        n <= 1296,
        lex_sorted(ks),
        valid_entry(ks[i], m[ks[i]], n, branches),
    ensures
        parse_entries(head + entries_bytes(ks, m), entry_offset(head, ks, m, i), (ks.len() - i) as nat, n, branches, first_entries(ks, m, i))
            == parse_entries(
            head + entries_bytes(ks, m),
            entry_offset(head, ks, m, i + 1),
            (ks.len() - i - 1) as nat,
            n,
            branches,
            first_entries(ks, m, i + 1),
        ),
{
    let data = head + entries_bytes(ks, m);
    lemma_entries_split(ks, m, i);
    lemma_entries_first(ks.skip(i), m);
    assert(ks.skip(i)[0] == ks[i]);
    assert(ks.skip(i).drop_first() =~= ks.skip(i + 1));
    let x = head + entries_bytes(ks.take(i), m);
    let y = entries_bytes(ks.skip(i + 1), m);
    assert(data =~= x + entry_bytes(ks[i], m[ks[i]]) + y);
    lemma_parse_entry_bytes(x, ks[i], m[ks[i]], y, n, branches);
    assert(ks.take(i + 1).drop_last() =~= ks.take(i));
    assert(ks.take(i + 1).last() == ks[i]);
    assert(entry_offset(head, ks, m, i + 1) == x.len() + entry_bytes(ks[i], m[ks[i]]).len());
    assert(!first_entries(ks, m, i).contains_key(ks[i])) by {
        if first_entries(ks, m, i).contains_key(ks[i]) {
            let j = choose|j: int| 0 <= j < i && ks[j] == ks[i];
            assert(lex_lt(ks[j], ks[i]));
            crate::keymap::lemma_lex_irreflexive(ks[i]);
        }
    }
    assert(first_entries(ks, m, i).insert(ks[i], m[ks[i]]) =~= first_entries(ks, m, i + 1));
}

proof fn lemma_parse_written_entries(
    head: Seq<u8>,
    ks: Seq<Seq<u16>>,
    m: Map<Seq<u16>, Entry>,
    n: nat,
    branches: nat,
    i: int,
)
    requires
        0 <= i <= ks.len(),
        n <= 1296,
        lex_sorted(ks),
        forall|q: int| 0 <= q < ks.len() ==> valid_entry(#[trigger] ks[q], m[ks[q]], n, branches),
    ensures
        parse_entries(head + entries_bytes(ks, m), entry_offset(head, ks, m, i), (ks.len() - i) as nat, n, branches, first_entries(ks, m, i))
            == Ok::<(Map<Seq<u16>, Entry>, nat), CheckpointError>(
            (first_entries(ks, m, ks.len() as int), entry_offset(head, ks, m, ks.len() as int)),
        ),
    decreases ks.len() - i,
{
    if i < ks.len() {
        lemma_written_step(head, ks, m, n, branches, i);
        lemma_parse_written_entries(head, ks, m, n, branches, i + 1);
    }
}

/// A checkpoint of states that the loader accepts reads back as the same
/// memoized bounds.
pub proof fn lemma_checkpoint_round_trip(
    colors: u8,
    slots: u8,
    ks: Seq<Seq<u16>>,
    m: Map<Seq<u16>, Entry>,
    n: nat,
    branches: nat,
)
    requires
        n <= 1296,
        lex_sorted(ks),
        forall|k: Seq<u16>| #[trigger] ks.contains(k) <==> m.contains_key(k),
        forall|k: Seq<u16>| #[trigger] m.contains_key(k) ==> valid_entry(k, m[k], n, branches),
        ks.len() <= usize::MAX,
    ensures
        decode_spec(checkpoint_spec(colors, slots, ks, m), colors, slots, n, branches) == Ok::<
            Map<Seq<u16>, Entry>,
            CheckpointError,
        >(m),
{
    reveal_with_fuel(crate::solver::power, 9);
    let body = checkpoint_body(colors, slots, ks, m);
    let bytes = checkpoint_spec(colors, slots, ks, m);
    let head = magic() + seq![colors, slots] + le_bytes(ks.len(), 8);
    lemma_le_bytes_len(ks.len(), 8);
    assert(head.len() == 18);
    assert forall|q: int| 0 <= q < ks.len() implies valid_entry(#[trigger] ks[q], m[ks[q]], n, branches) by {
        assert(ks.contains(ks[q]));
    }
    assert forall|q: int| 0 <= q < ks.len() implies (#[trigger] ks[q]).len() >= 1 by {
        assert(ks.contains(ks[q]));
    }
    lemma_entries_len(ks, m);
    let sum = fnv(body);
    lemma_le_bytes_len(sum as nat, 8);
    assert(bytes == body + le_bytes(sum as nat, 8));
    assert(bytes.len() == body.len() + 8);
    assert(bytes.take(8) =~= magic());
    assert(bytes.take(bytes.len() - 8) =~= body);
    assert(bytes =~= body + le_bytes(sum as nat, 8) + Seq::<u8>::empty());
    lemma_field_at(body, sum as nat, 8, Seq::<u8>::empty());
    assert(body[8] == colors && body[9] == slots);
    assert(body =~= (magic() + seq![colors, slots]) + le_bytes(ks.len(), 8) + entries_bytes(ks, m));
    lemma_field_at(magic() + seq![colors, slots], ks.len(), 8, entries_bytes(ks, m));
    assert(body =~= head + entries_bytes(ks, m));
    assert(ks.take(0) =~= Seq::<Seq<u16>>::empty());
    assert(first_entries(ks, m, 0) =~= Map::<Seq<u16>, Entry>::empty());
    lemma_parse_written_entries(head, ks, m, n, branches, 0);
    assert(entry_offset(head, ks, m, 0) == 18);
    assert(ks.take(ks.len() as int) =~= ks);
    assert(entry_offset(head, ks, m, ks.len() as int) == body.len());
    assert(first_entries(ks, m, ks.len() as int) =~= m) by {
        assert forall|k: Seq<u16>| #[trigger] m.contains_key(k) implies first_entries(ks, m, ks.len() as int).contains_key(k) by {
            assert(ks.contains(k));
            let j = choose|j: int| 0 <= j < ks.len() && ks[j] == k;
        }
        assert forall|k: Seq<u16>| #[trigger] first_entries(ks, m, ks.len() as int).contains_key(k) implies m.contains_key(k) by {
            let j = choose|j: int| 0 <= j < ks.len() && ks[j] == k;
            assert(ks.contains(ks[j]));
        }
    }
}

/// Multiplying by the FNV prime is undone by multiplying by its inverse
/// modulo 2^64.
proof fn lemma_fnv_prime_inverse(x: u64)
    ensures
        x.wrapping_mul(0x100000001b3u64).wrapping_mul(0xce965057aff6957bu64) == x,
{
    let y = x.wrapping_mul(0x100000001b3u64);
    assert(y == ((x * 0x100000001b3u64) % 0x1_0000_0000_0000_0000) as u64);
    assert(y.wrapping_mul(0xce965057aff6957bu64) == ((y * 0xce965057aff6957bu64) % 0x1_0000_0000_0000_0000) as u64);
    assert(((((x * 0x100000001b3u64) % 0x1_0000_0000_0000_0000) as u64 * 0xce965057aff6957bu64) % 0x1_0000_0000_0000_0000) as u64 == x)
        by (bit_vector);
}

/// One FNV-1a step keeps different states different.
proof fn lemma_fnv_step_injective(x: u64, y: u64, c: u8)
    requires
        x != y,
    ensures
        (x ^ (c as u64)).wrapping_mul(0x100000001b3u64) != (y ^ (c as u64)).wrapping_mul(0x100000001b3u64),
{
    let cx = x ^ (c as u64);
    let cy = y ^ (c as u64);
    assert(cx != cy) by (bit_vector)
        requires
            x != y,
            cx == x ^ (c as u64),
            cy == y ^ (c as u64),
    ;
    lemma_fnv_prime_inverse(cx);
    lemma_fnv_prime_inverse(cy);
}

/// Different starting states give different FNV-1a results.
proof fn lemma_fnv_from_injective(x: u64, y: u64, b: Seq<u8>)
    requires
        x != y,
    ensures
        fnv_from(x, b) != fnv_from(y, b),
    decreases b.len(),
{
    if b.len() > 0 {
        lemma_fnv_step_injective(x, y, b[0]);
        lemma_fnv_from_injective(
            (x ^ (b[0] as u64)).wrapping_mul(0x100000001b3u64),
            (y ^ (b[0] as u64)).wrapping_mul(0x100000001b3u64),
            b.drop_first(),
        );
    }
}

proof fn lemma_fnv_from_update(h: u64, b: Seq<u8>, i: int, v: u8)
    requires
        0 <= i < b.len(),
        v != b[i],
    ensures
        fnv_from(h, b.update(i, v)) != fnv_from(h, b),
    decreases b.len(),
{
    let b2 = b.update(i, v);
    if i == 0 {
        let hv = (h ^ (v as u64)).wrapping_mul(0x100000001b3u64);
        let hb = (h ^ (b[0] as u64)).wrapping_mul(0x100000001b3u64);
        let b0 = b[0];
        assert(h ^ (v as u64) != h ^ (b0 as u64)) by (bit_vector)
            requires
                v != b0,
        ;
        lemma_fnv_prime_inverse(h ^ (v as u64));
        lemma_fnv_prime_inverse(h ^ (b[0] as u64));
        assert(b2.drop_first() =~= b.drop_first());
        lemma_fnv_from_injective(hv, hb, b.drop_first());
    } else {
        assert(b2.drop_first() =~= b.drop_first().update(i - 1, v));
        lemma_fnv_from_update((h ^ (b[0] as u64)).wrapping_mul(0x100000001b3u64), b.drop_first(), i - 1, v);
    }
}

/// FNV-1a tells apart any two byte strings that differ in one byte: a
/// checkpoint with one byte of its body changed fails its checksum.
pub proof fn lemma_one_byte_changes_checksum(b: Seq<u8>, i: int, v: u8)
    requires
        0 <= i < b.len(),
        v != b[i],
    ensures
        fnv(b.update(i, v)) != fnv(b),
{
    lemma_fnv_from_update(0xcbf29ce484222325u64, b, i, v);
}

/// A checkpoint whose checksum holds is refused once any one byte before
/// the checksum is changed.
pub proof fn lemma_corrupted_checkpoint_refused(bytes: Seq<u8>, i: int, v: u8, colors: u8, slots: u8, n: nat, branches: nat)
    requires
        bytes.len() >= 26,
        fnv(bytes.take(bytes.len() - 8)) as nat == field(bytes, (bytes.len() - 8) as nat, 8),
        0 <= i < bytes.len() - 8,
        v != bytes[i],
    ensures
        decode_spec(bytes.update(i, v), colors, slots, n, branches) is Err,
{
    let b2 = bytes.update(i, v);
    let data = bytes.take(bytes.len() - 8);
    assert(b2.take(b2.len() - 8) =~= data.update(i, v));
    lemma_one_byte_changes_checksum(data, i, v);
    let p = (bytes.len() - 8) as nat;
    assert(b2.subrange(p as int, (p + 8) as int) =~= bytes.subrange(p as int, (p + 8) as int));
}

} // verus!
