use vstd::prelude::*;

verus! {

/// The deepest nesting of lists and compounds that a tag may have.
pub const NBT_MAX_DEPTH: usize = 512;

/// The big-endian unsigned 16-bit number at `p`.
pub open spec fn be16(b: Seq<u8>, p: int) -> int {
    b[p] * 256 + b[p + 1]
}

/// The big-endian signed 32-bit number at `p`.
pub open spec fn be32s(b: Seq<u8>, p: int) -> int {
    let u = b[p] * 0x100_0000 + b[p + 1] * 0x1_0000 + b[p + 2] * 0x100 + b[p + 3];
    if u >= 0x8000_0000 {
        u - 0x1_0000_0000
    } else {
        u
    }
}

/// An array of `k`-byte items at `pos`: a signed 32-bit count, then the items;
/// a negative count, or one that runs past the bytes, fails.
pub open spec fn walk_array(b: Seq<u8>, pos: int, k: int) -> Option<int> {
    if pos + 4 > b.len() {
        None
    } else {
        let l = be32s(b, pos);
        if l < 0 || pos + 4 + l * k > b.len() {
            None
        } else {
            Some(pos + 4 + l * k)
        }
    }
}

/// Walks the payload of a tag with type `id` at `pos`, with at most `depth`
/// more levels of lists and compounds: where it ends, or `None` where a length
/// is negative or runs past the bytes, the type is unknown or the nesting is
/// too deep.
pub open spec fn nbt_walk(b: Seq<u8>, pos: int, id: u8, depth: nat) -> Option<int>
    decreases depth, 0nat, 0nat,
{
    if pos < 0 || pos > b.len() {
        None
    } else if id == 1 {
        if pos + 1 <= b.len() { Some(pos + 1) } else { None }
    } else if id == 2 {
        if pos + 2 <= b.len() { Some(pos + 2) } else { None }
    } else if id == 3 || id == 5 {
        if pos + 4 <= b.len() { Some(pos + 4) } else { None }
    } else if id == 4 || id == 6 {
        if pos + 8 <= b.len() { Some(pos + 8) } else { None }
    } else if id == 7 {
        walk_array(b, pos, 1)
    } else if id == 11 {
        walk_array(b, pos, 4)
    } else if id == 12 {
        walk_array(b, pos, 8)
    } else if id == 8 {
        if pos + 2 > b.len() || pos + 2 + be16(b, pos) > b.len() {
            None
        } else {
            Some(pos + 2 + be16(b, pos))
        }
    } else if id == 9 {
        if depth == 0 || pos + 5 > b.len() {
            None
        } else {
            let l = be32s(b, pos + 1);
            if l < 0 || pos + 5 + l > b.len() {
                None
            } else {
                nbt_walk_list(b, pos + 5, b[pos], l as nat, (depth - 1) as nat)
            }
        }
    } else if id == 10 {
        if depth == 0 {
            None
        } else {
            nbt_walk_compound(b, pos, (depth - 1) as nat)
        }
    } else {
        None
    }
}

/// Walks `count` payloads of type `e` from `pos`.
pub open spec fn nbt_walk_list(b: Seq<u8>, pos: int, e: u8, count: nat, depth: nat) -> Option<int>
    decreases depth, 1nat, count,
{
    if count == 0 {
        Some(pos)
    } else {
        match nbt_walk(b, pos, e, depth) {
            Some(p) => nbt_walk_list(b, p, e, (count - 1) as nat, depth),
            None => None,
        }
    }
}

/// Walks the named entries of a compound from `pos` up to its end tag.
pub open spec fn nbt_walk_compound(b: Seq<u8>, pos: int, depth: nat) -> Option<int>
    decreases depth, 1nat, (b.len() - pos) as nat,
{
    if pos < 0 || pos >= b.len() {
        None
    } else if b[pos] == 0 {
        Some(pos + 1)
    } else if pos + 3 > b.len() || pos + 3 + be16(b, pos + 1) > b.len() {
        None
    } else {
        match nbt_walk(b, pos + 3 + be16(b, pos + 1), b[pos], depth) {
            Some(q) => if q <= pos || q > b.len() {
                None
            } else {
                nbt_walk_compound(b, q, depth)
            },
            None => None,
        }
    }
}

/// Walks a root compound tag from the start of `b`: where it ends.
#[verifier::opaque]
pub open spec fn nbt_root(b: Seq<u8>) -> Option<int> {
    if b.len() < 3 || b[0] != 10 || 3 + be16(b, 1) > b.len() {
        None
    } else {
        nbt_walk_compound(b, 3 + be16(b, 1), NBT_MAX_DEPTH as nat)
    }
}

/// `b2` holds the first `q` bytes of `b`.
pub open spec fn agree(b: Seq<u8>, b2: Seq<u8>, q: int) -> bool {
    &&& q <= b.len()
    &&& q <= b2.len()
    &&& forall|i: int| 0 <= i < q ==> b2[i] == b[i]
}

proof fn lemma_walk_prefix(b: Seq<u8>, b2: Seq<u8>, pos: int, id: u8, depth: nat, q: int)
    requires
        nbt_walk(b, pos, id, depth) == Some(q),
    ensures
        pos < q <= b.len(),
        agree(b, b2, q) ==> nbt_walk(b2, pos, id, depth) == Some(q),
    decreases depth, 0nat, 0nat,
{
    if id == 7 || id == 11 || id == 12 {
        if agree(b, b2, q) {
            assert(b2[pos] == b[pos] && b2[pos + 1] == b[pos + 1] && b2[pos + 2] == b[pos + 2]
                && b2[pos + 3] == b[pos + 3]);
            let l = be32s(b, pos);
            let k: int = if id == 7 { 1 } else if id == 11 { 4 } else { 8 };
            assert(l * k >= 0) by (nonlinear_arith)
                requires
                    l >= 0,
                    k >= 1,
            ;
        } else {
            let l = be32s(b, pos);
            assert(l * 1 >= 0 && l * 4 >= 0 && l * 8 >= 0) by (nonlinear_arith)
                requires
                    l >= 0,
            ;
        }
    } else if id == 8 {
        if agree(b, b2, q) {
            assert(b2[pos] == b[pos] && b2[pos + 1] == b[pos + 1]);
        }
    } else if id == 9 {
        let l = be32s(b, pos + 1);
        lemma_list_prefix(b, b2, pos + 5, b[pos], l as nat, (depth - 1) as nat, q);
        if agree(b, b2, q) {
            assert(b2[pos] == b[pos] && b2[pos + 1] == b[pos + 1] && b2[pos + 2] == b[pos + 2]
                && b2[pos + 3] == b[pos + 3] && b2[pos + 4] == b[pos + 4]);
        }
    } else if id == 10 {
        lemma_compound_prefix(b, b2, pos, (depth - 1) as nat, q);
    }
}

proof fn lemma_list_prefix(b: Seq<u8>, b2: Seq<u8>, pos: int, e: u8, count: nat, depth: nat, q: int)
    requires
        nbt_walk_list(b, pos, e, count, depth) == Some(q),
    ensures
        pos + count <= q,
        count > 0 ==> q <= b.len(),
        agree(b, b2, q) ==> nbt_walk_list(b2, pos, e, count, depth) == Some(q),
    decreases depth, 1nat, count,
{
    if count > 0 {
        let p = nbt_walk(b, pos, e, depth)->Some_0;
        lemma_walk_prefix(b, b2, pos, e, depth, p);
        lemma_list_prefix(b, b2, p, e, (count - 1) as nat, depth, q);
    }
}

proof fn lemma_compound_prefix(b: Seq<u8>, b2: Seq<u8>, pos: int, depth: nat, q: int)
    requires
        nbt_walk_compound(b, pos, depth) == Some(q),
    ensures
        pos < q <= b.len(),
        agree(b, b2, q) ==> nbt_walk_compound(b2, pos, depth) == Some(q),
    decreases depth, 1nat, (b.len() - pos) as nat,
{
    if b[pos] != 0 {
        let p = pos + 3 + be16(b, pos + 1);
        let q1 = nbt_walk(b, p, b[pos], depth)->Some_0;
        lemma_walk_prefix(b, b2, p, b[pos], depth, q1);
        lemma_compound_prefix(b, b2, q1, depth, q);
        if agree(b, b2, q) {
            assert(b2[pos] == b[pos] && b2[pos + 1] == b[pos + 1] && b2[pos + 2] == b[pos + 2]);
            assert(agree(b, b2, q1));
        }
    } else if agree(b, b2, q) {
        assert(b2[pos] == b[pos]);
    }
}

/// A walk that ends at `q` reads nothing past `q`: any bytes that begin
/// with the same `q` bytes walk to the same end.
pub proof fn lemma_root_prefix(b: Seq<u8>, b2: Seq<u8>)
    requires
        nbt_root(b) is Some,
    ensures
        0 < nbt_root(b)->Some_0 <= b.len(),
        agree(b, b2, nbt_root(b)->Some_0) ==> nbt_root(b2) == nbt_root(b),
{
    reveal(nbt_root);
    let q = nbt_root(b)->Some_0;
    lemma_compound_prefix(b, b2, 3 + be16(b, 1), NBT_MAX_DEPTH as nat, q);
    if agree(b, b2, q) {
        assert(b2[0] == b[0] && b2[1] == b[1] && b2[2] == b[2]);
    }
}

fn read_be16(b: &[u8], p: usize) -> (r: usize)
    requires
        p + 2 <= b@.len(),
    ensures
        r == be16(b@, p as int),
{
    (b[p] as usize) * 256 + b[p + 1] as usize
}

/// The signed 32-bit number at `p`, or `None` where it is negative.
fn read_be32_count(b: &[u8], p: usize) -> (r: Option<u64>)
    requires
        p + 4 <= b@.len(),
    ensures
        be32s(b@, p as int) < 0 ==> r is None,
        be32s(b@, p as int) >= 0 ==> r == Some(be32s(b@, p as int) as u64),
{
    let u: u64 = (b[p] as u64) * 0x100_0000 + (b[p + 1] as u64) * 0x1_0000 + (b[p + 2] as u64)
        * 0x100 + b[p + 3] as u64;
    if u >= 0x8000_0000 {
        None
    } else {
        Some(u)
    }
}

fn walk_array_exec(b: &[u8], pos: usize, k: u64) -> (r: Option<usize>)
    requires
        pos <= b@.len(),
        1 <= k <= 8,
    ensures
        r matches Some(q) ==> walk_array(b@, pos as int, k as int) == Some(q as int),
        r is None ==> walk_array(b@, pos as int, k as int) is None,
{
    if b.len() < 4 || pos > b.len() - 4 {
        return None;
    }
    match read_be32_count(b, pos) {
        None => None,
        Some(l) => {
            assert(l * k <= 0x8000_0000 * 8) by (nonlinear_arith)
                requires
                    l < 0x8000_0000,
                    k <= 8,
            ;
            let room = (b.len() - pos - 4) as u64;
            if l * k > room {
                None
            } else {
                Some(pos + 4 + (l * k) as usize)
            }
        },
    }
}

/// Walks a payload of type `id` at `pos`, as `nbt_walk` states it.
fn walk(b: &[u8], pos: usize, id: u8, depth: usize) -> (r: Option<usize>)
    requires
        pos <= b@.len(),
    ensures
        r matches Some(q) ==> nbt_walk(b@, pos as int, id, depth as nat) == Some(q as int),
        r is None ==> nbt_walk(b@, pos as int, id, depth as nat) is None,
    decreases depth, 0nat, 0nat,
{
    let n = b.len();
    if id == 1 {
        if n - pos >= 1 { Some(pos + 1) } else { None }
    } else if id == 2 {
        if n - pos >= 2 { Some(pos + 2) } else { None }
    } else if id == 3 || id == 5 {
        if n - pos >= 4 { Some(pos + 4) } else { None }
    } else if id == 4 || id == 6 {
        if n - pos >= 8 { Some(pos + 8) } else { None }
    } else if id == 7 {
        walk_array_exec(b, pos, 1)
    } else if id == 11 {
        walk_array_exec(b, pos, 4)
    } else if id == 12 {
        walk_array_exec(b, pos, 8)
    } else if id == 8 {
        if n - pos < 2 {
            return None;
        }
        let l = read_be16(b, pos);
        if l > n - pos - 2 {
            None
        } else {
            Some(pos + 2 + l)
        }
    } else if id == 9 {
        if depth == 0 || n - pos < 5 {
            return None;
        }
        match read_be32_count(b, pos + 1) {
            None => None,
            Some(l) => if l > (n - pos - 5) as u64 {
                None
            } else {
                walk_list(b, pos + 5, b[pos], l as usize, depth - 1)
            },
        }
    } else if id == 10 {
        if depth == 0 {
            None
        } else {
            walk_compound(b, pos, depth - 1)
        }
    } else {
        None
    }
}

fn walk_list(b: &[u8], pos: usize, e: u8, count: usize, depth: usize) -> (r: Option<usize>)
    requires
        pos <= b@.len(),
    ensures
        r matches Some(q) ==> nbt_walk_list(b@, pos as int, e, count as nat, depth as nat) == Some(
            q as int,
        ),
        r is None ==> nbt_walk_list(b@, pos as int, e, count as nat, depth as nat) is None,
    decreases depth, 1nat, count,
{
    let mut p = pos;
    let mut i: usize = 0;
    while i < count
        invariant
            i <= count,
            p <= b@.len(),
            nbt_walk_list(b@, pos as int, e, count as nat, depth as nat) == nbt_walk_list(
                b@,
                p as int,
                e,
                (count - i) as nat,
                depth as nat,
            ),
        decreases count - i,
    {
        match walk(b, p, e, depth) {
            None => return None,
            Some(q) => {
                proof {
                    lemma_walk_prefix(b@, b@, p as int, e, depth as nat, q as int);
                }
                p = q;
            },
        }
        i = i + 1;
    }
    Some(p)
}

fn walk_compound(b: &[u8], pos: usize, depth: usize) -> (r: Option<usize>)
    requires
        pos <= b@.len(),
    ensures
        r matches Some(q) ==> nbt_walk_compound(b@, pos as int, depth as nat) == Some(q as int),
        r is None ==> nbt_walk_compound(b@, pos as int, depth as nat) is None,
    decreases depth, 1nat, (b@.len() - pos) as nat,
{
    let n = b.len();
    let mut p = pos;
    while p < n && b[p] != 0
        invariant
            pos <= p <= n,
            n == b@.len(),
            nbt_walk_compound(b@, pos as int, depth as nat) == nbt_walk_compound(
                b@,
                p as int,
                depth as nat,
            ),
        decreases n - p,
    {
        if n - p < 3 {
            return None;
        }
        let l = read_be16(b, p + 1);
        if l > n - p - 3 {
            return None;
        }
        match walk(b, p + 3 + l, b[p], depth) {
            None => return None,
            Some(q) => {
                if q <= p || q > n {
                    return None;
                }
                p = q;
            },
        }
    }
    if p < n {
        Some(p + 1)
    } else {
        None
    }
}

/// Walks a root compound tag from the start of `b`, as `nbt_root` states it.
pub fn walk_root(b: &[u8]) -> (r: Option<usize>)
    ensures
        r matches Some(q) ==> nbt_root(b@) == Some(q as int),
        r is None ==> nbt_root(b@) is None,
{
    proof {
        reveal(nbt_root);
    }
    if b.len() < 3 || b[0] != 10 {
        return None;
    }
    let l = read_be16(b, 1);
    if l > b.len() - 3 {
        return None;
    }
    walk_compound(b, 3 + l, NBT_MAX_DEPTH)
}

} // verus!
