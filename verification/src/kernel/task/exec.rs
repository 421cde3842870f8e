//! What `exec` puts on the new user stack: the argument strings, each ended
//! by a zero byte, below the array of their addresses.
use crate::kernel::address::VirtAddr;
use crate::kernel::config::PAGE_SIZE;
use crate::kernel::page_table::{
    frame_of, in_tables, lemma_not_in_tables, lemma_placed_walk, lemma_same_tables, leaf_value, page_walkable,
    user_addr, PageTable,
};
use crate::easy_fs::block_cache::u64_bytes;
use crate::kernel::trap::context::{TrapContext, SSTATUS_SPP};
use vstd::bytes::u64_to_le_bytes;
use vstd::prelude::*;

verus! {

/// `m1` walks every page as `m0` does under `pt`: its tables are still well
/// placed and every page keeps its last-level entry.
pub open spec fn same_walks(m0: Seq<u8>, m1: Seq<u8>, pt: PageTable) -> bool {
    &&& m1.len() == m0.len()
    &&& pt.placed(m1)
    &&& forall|v: int| 0 <= v ==> #[trigger] leaf_value(m1, pt.root(), v) == leaf_value(m0, pt.root(), v)
}

/// User byte `va` is mapped into `mem` under `pt`, in a frame that holds no table.
pub open spec fn user_byte_writable(mem: Seq<u8>, pt: PageTable, va: int) -> bool {
    &&& page_walkable(mem, pt.root(), va / PAGE_SIZE as int)
    &&& user_addr(mem, pt.root(), va) < mem.len()
    &&& !pt.levels().dom().contains(frame_of(mem, pt.root(), va / PAGE_SIZE as int))
}

/// The user bytes `[lo, hi)` can be written one by one under `pt`: each is
/// mapped into `mem`, in a frame that holds no table, and no two of them
/// reach the same byte.
pub open spec fn user_range_writable(mem: Seq<u8>, pt: PageTable, lo: int, hi: int) -> bool {
    &&& pt.placed(mem)
    &&& 0 <= lo <= hi
    &&& forall|va: int| lo <= va < hi ==> #[trigger] user_byte_writable(mem, pt, va)
    &&& forall|u: int, v: int|
        lo <= u < hi && lo <= v < hi && u != v ==> #[trigger] user_addr(mem, pt.root(), u) != #[trigger] user_addr(
            mem,
            pt.root(),
            v,
        )
}

/// Byte `a` of memory is one that user bytes `[lo, hi)` reach under `pt`.
pub open spec fn reached(mem: Seq<u8>, pt: PageTable, lo: int, hi: int, a: int) -> bool {
    exists|va: int| lo <= va < hi && #[trigger] user_addr(mem, pt.root(), va) == a
}

/// Writability of a range carries over to memory that walks the same way,
/// and to a part of the range.
proof fn lemma_writable_kept(m0: Seq<u8>, m1: Seq<u8>, pt: PageTable, lo: int, hi: int, lo2: int, hi2: int)
    requires
        user_range_writable(m0, pt, lo, hi),
        same_walks(m0, m1, pt),
        lo <= lo2 <= hi2 <= hi,
    ensures
        user_range_writable(m1, pt, lo2, hi2),
        forall|va: int| 0 <= va ==> #[trigger] user_addr(m1, pt.root(), va) == user_addr(m0, pt.root(), va),
{
    assert forall|va: int| 0 <= va implies #[trigger] user_addr(m1, pt.root(), va) == user_addr(m0, pt.root(), va) by {
        assert(leaf_value(m1, pt.root(), va / PAGE_SIZE as int) == leaf_value(m0, pt.root(), va / PAGE_SIZE as int));
    }
    assert forall|va: int| lo2 <= va < hi2 implies #[trigger] user_byte_writable(m1, pt, va) by {
        let v = va / PAGE_SIZE as int;
        assert(user_byte_writable(m0, pt, va));
        assert(leaf_value(m1, pt.root(), v) == leaf_value(m0, pt.root(), v));
        lemma_placed_walk(m1, pt.root(), pt.levels(), v);
    }
    assert forall|u: int, v: int| lo2 <= u < hi2 && lo2 <= v < hi2 && u != v implies #[trigger] user_addr(
        m1,
        pt.root(),
        u,
    ) != #[trigger] user_addr(m1, pt.root(), v) by {
        assert(user_addr(m0, pt.root(), u) != user_addr(m0, pt.root(), v));
    }
    assert(pt.placed(m1));
    assert(0 <= lo2 <= hi2);
}

/// Stores `b` at user address `va` under `page_table`.
pub fn write_user_byte(page_table: &PageTable, va: usize, b: u8, mem: &mut [u8])
    requires
        user_range_writable(old(mem)@, *page_table, va as int, va + 1),
    ensures
        final(mem)@ == old(mem)@.update(user_addr(old(mem)@, page_table.root(), va as int), b),
        same_walks(old(mem)@, final(mem)@, *page_table),
{
    let ghost m0 = mem@;
    let ghost root = page_table.root();
    let ghost a = user_addr(m0, root, va as int);
    assert(user_byte_writable(m0, *page_table, va as int));
    proof {
        lemma_placed_walk(m0, root, page_table.levels(), va as int / PAGE_SIZE as int);
    }
    let pa = match page_table.translate_va(VirtAddr(va), mem) {
        Some(pa) => pa.0,
        None => {
            proof {
                assert(false);
            }
            0
        },
    };
    mem[pa] = b;
    proof {
        let f = frame_of(m0, root, va as int / PAGE_SIZE as int);
        lemma_not_in_tables(page_table.levels(), f, a);
        assert forall|k: int|
            0 <= k < m0.len() && (exists|p: int|
                #[trigger] page_table.levels().dom().contains(p) && p * PAGE_SIZE <= k < p * PAGE_SIZE + PAGE_SIZE)
                implies #[trigger] mem@[k] == m0[k] by {
            assert(in_tables(page_table.levels(), k));
        }
        lemma_same_tables(m0, mem@, root, page_table.levels());
    }
}

/// Stores the bytes of `data` from user address `va` on, under `page_table`.
pub fn write_user_bytes(page_table: &PageTable, va: usize, data: &[u8], mem: &mut [u8])
    requires
        user_range_writable(old(mem)@, *page_table, va as int, va + data@.len()),
        va + data@.len() <= usize::MAX,
    ensures
        same_walks(old(mem)@, final(mem)@, *page_table),
        forall|k: int|
            0 <= k < data@.len() ==> final(mem)@[#[trigger] user_addr(old(mem)@, page_table.root(), va + k)]
                == data@[k],
        forall|a: int|
            0 <= a < old(mem)@.len() && !reached(old(mem)@, *page_table, va as int, va + data@.len(), a)
                ==> #[trigger] final(mem)@[a] == old(mem)@[a],
{
    let ghost m0 = mem@;
    let ghost root = page_table.root();
    let n = data.len();
    let mut i: usize = 0;
    while i < n
        invariant
            0 <= i <= n,
            n == data@.len(),
            user_range_writable(m0, *page_table, va as int, va + n),
            va + n <= usize::MAX,
            same_walks(m0, mem@, *page_table),
            forall|k: int| 0 <= k < i ==> mem@[#[trigger] user_addr(m0, root, va + k)] == data@[k],
            forall|a: int| 0 <= a < m0.len() && !reached(m0, *page_table, va as int, va + i, a) ==> #[trigger] mem@[a] == m0[a],
            root == page_table.root(),
        decreases n - i,
    {
        let ghost m1 = mem@;
        proof {
            lemma_writable_kept(m0, m1, *page_table, va as int, va + n, va + i, va + i + 1);
        }
        write_user_byte(page_table, va + i, data[i], mem);
        proof {
            let a = user_addr(m0, root, va + i);
            assert(user_addr(m1, root, va + i) == a);
            assert(user_byte_writable(m0, *page_table, va + i));
            assert forall|k: int| 0 <= k < i + 1 implies mem@[#[trigger] user_addr(m0, root, va + k)] == data@[k] by {
                assert(user_byte_writable(m0, *page_table, va + k));
                if k < i {
                    assert(user_addr(m0, root, va + k) != a);
                }
            }
            assert(reached(m0, *page_table, va as int, va + i + 1, a));
            assert forall|b: int| 0 <= b < m0.len() && !reached(m0, *page_table, va as int, va + i + 1, b) implies #[trigger] mem@[b]
                == m0[b] by {
                if reached(m0, *page_table, va as int, va + i, b) {
                    let w = choose|w: int| va <= w < va + i && #[trigger] user_addr(m0, root, w) == b;
                    assert(reached(m0, *page_table, va as int, va + i + 1, b));
                }
            }
            assert(same_walks(m0, mem@, *page_table));
        }
        i += 1;
    }
}

/// The bytes the first `k` arguments take on the stack, each with its ending zero.
pub open spec fn args_size(args: Seq<Seq<u8>>, k: int) -> int
    decreases k,
{
    if k <= 0 {
        0
    } else {
        args_size(args, k - 1) + args[k - 1].len() + 1
    }
}

/// Where the array of argument addresses starts: `n + 1` words below `top`.
pub open spec fn argv_base(top: int, n: int) -> int {
    top - (n + 1) * 8
}

/// Where argument `i` starts: the arguments lie one below the other under the array.
pub open spec fn arg_start(top: int, args: Seq<Seq<u8>>, i: int) -> int {
    argv_base(top, args.len() as int) - args_size(args, i + 1)
}

/// The lowest byte the arguments take.
pub open spec fn args_low(top: int, args: Seq<Seq<u8>>) -> int {
    argv_base(top, args.len() as int) - args_size(args, args.len() as int)
}

/// Byte `k` of word `w` of the address array.
pub open spec fn argv_slot(top: int, n: int, w: int, k: int) -> int {
    argv_base(top, n) + 8 * w + k
}

/// Byte `k` of argument `i` (its ending zero when `k` is its length).
pub open spec fn arg_byte(top: int, args: Seq<Seq<u8>>, i: int, k: int) -> int {
    arg_start(top, args, i) + k
}

/// Word `w` of the address array: where argument `w` starts, and 0 after the last.
pub open spec fn argv_word(top: int, args: Seq<Seq<u8>>, w: int) -> u64 {
    if w < args.len() {
        arg_start(top, args, w) as u64
    } else {
        0
    }
}

/// The bytes of each argument.
pub open spec fn arg_views(args: Seq<Vec<u8>>) -> Seq<Seq<u8>> {
    args.map_values(|a: Vec<u8>| a@)
}

proof fn lemma_args_size_mono(args: Seq<Seq<u8>>, i: int, j: int)
    requires
        0 <= i <= j,
    ensures
        args_size(args, i) <= args_size(args, j),
    decreases j - i,
{
    if i < j {
        lemma_args_size_mono(args, i, j - 1);
    }
}

/// A byte of `[lo, hi)` outside the range `[wlo, whi)` that was just written
/// keeps its value.
proof fn lemma_keep(
    m0: Seq<u8>,
    mp: Seq<u8>,
    mn: Seq<u8>,
    pt: PageTable,
    lo: int,
    hi: int,
    wlo: int,
    whi: int,
    x: int,
)
    requires
        user_range_writable(m0, pt, lo, hi),
        same_walks(m0, mp, pt),
        0 <= lo <= wlo <= whi <= hi,
        lo <= x < hi,
        !(wlo <= x < whi),
        forall|a: int| 0 <= a < mp.len() && !reached(mp, pt, wlo, whi, a) ==> #[trigger] mn[a] == mp[a],
    ensures
        mn[user_addr(m0, pt.root(), x)] == mp[user_addr(m0, pt.root(), x)],
{
    lemma_writable_kept(m0, mp, pt, lo, hi, lo, hi);
    let a = user_addr(m0, pt.root(), x);
    assert(user_byte_writable(m0, pt, x));
    if reached(mp, pt, wlo, whi, a) {
        let y = choose|y: int| wlo <= y < whi && #[trigger] user_addr(mp, pt.root(), y) == a;
        assert(user_addr(m0, pt.root(), y) == a);
        assert(user_addr(m0, pt.root(), y) != user_addr(m0, pt.root(), x));
    }
}

/// A byte that no user byte of `[wlo, whi)` reaches keeps its value.
proof fn lemma_keep_rest(m0: Seq<u8>, mp: Seq<u8>, mn: Seq<u8>, pt: PageTable, wlo: int, whi: int, a: int)
    requires
        same_walks(m0, mp, pt),
        0 <= wlo,
        0 <= a < mp.len(),
        !reached(m0, pt, wlo, whi, a),
        forall|b: int| 0 <= b < mp.len() && !reached(mp, pt, wlo, whi, b) ==> #[trigger] mn[b] == mp[b],
    ensures
        mn[a] == mp[a],
{
    if reached(mp, pt, wlo, whi, a) {
        let y = choose|y: int| wlo <= y < whi && #[trigger] user_addr(mp, pt.root(), y) == a;
        assert(leaf_value(mp, pt.root(), y / PAGE_SIZE as int) == leaf_value(m0, pt.root(), y / PAGE_SIZE as int));
        assert(user_addr(m0, pt.root(), y) == a);
    }
}

/// Puts the arguments `args` on the user stack that ends at `ustack_top`, as
/// `exec` does: under the top an array of `args.len() + 1` words, the address
/// of each argument and then 0; under the array the arguments, the first
/// highest, each followed by a zero byte. Returns the stack pointer left
/// below them, rounded down to a multiple of 8, and the array's address.
pub fn push_args(page_table: &PageTable, ustack_top: usize, args: &Vec<Vec<u8>>, mem: &mut [u8]) -> (r: (usize, usize))
    requires
        args_low(ustack_top as int, arg_views(args@)) >= 0,
        user_range_writable(old(mem)@, *page_table, args_low(ustack_top as int, arg_views(args@)), ustack_top as int),
    ensures
        ({
            let a = arg_views(args@);
            let top = ustack_top as int;
            let n = args@.len() as int;
            let low = args_low(top, a);
            let root = page_table.root();
            &&& r.1 == argv_base(top, n)
            &&& r.0 == low - low % 8
            &&& same_walks(old(mem)@, final(mem)@, *page_table)
            &&& forall|w: int, k: int|
                0 <= w <= n && 0 <= k < 8 ==> final(mem)@[#[trigger] user_addr(old(mem)@, root, argv_slot(top, n, w, k))]
                    == u64_bytes(argv_word(top, a, w))[k]
            &&& forall|i: int, k: int|
                0 <= i < n && 0 <= k <= a[i].len() ==> final(mem)@[#[trigger] user_addr(old(mem)@, root, arg_byte(top, a, i, k))]
                    == if k < a[i].len() {
                    a[i][k]
                } else {
                    0u8
                }
            &&& forall|b: int|
                0 <= b < old(mem)@.len() && !reached(old(mem)@, *page_table, low, top, b) ==> #[trigger] final(mem)@[b]
                    == old(mem)@[b]
        }),
{
    let ghost m0 = mem@;
    let ghost a = arg_views(args@);
    let ghost top = ustack_top as int;
    let ghost root = page_table.root();
    let n = args.len();
    let ghost low = args_low(top, a);
    proof {
        lemma_args_size_mono(a, 0, n as int);
        assert(a.len() == n);
    }
    let base = ustack_top - (n + 1) * 8;
    let mut user_sp = base;
    let mut starts: Vec<usize> = Vec::new();
    let mut i: usize = 0;
    while i < n
        invariant
            0 <= i <= n,
            n == args@.len(),
            a == arg_views(args@),
            a.len() == n,
            top == ustack_top,
            root == page_table.root(),
            low == args_low(top, a),
            0 <= low,
            base == argv_base(top, n as int),
            low <= base,
            base + 8 * (n + 1) == top,
            user_range_writable(m0, *page_table, low, top),
            user_sp == base - args_size(a, i as int),
            starts@.len() == i,
            forall|j: int| 0 <= j < i ==> #[trigger] starts@[j] == arg_start(top, a, j),
            same_walks(m0, mem@, *page_table),
            forall|j: int, k: int|
                0 <= j < i && 0 <= k <= a[j].len() ==> mem@[#[trigger] user_addr(m0, root, arg_byte(top, a, j, k))]
                    == if k < a[j].len() {
                    a[j][k]
                } else {
                    0u8
                },
            forall|b: int| 0 <= b < m0.len() && !reached(m0, *page_table, user_sp as int, base as int, b) ==> #[trigger] mem@[b] == m0[b],
        decreases n - i,
    {
        proof {
            lemma_args_size_mono(a, i + 1, n as int);
            lemma_args_size_mono(a, i as int, i + 1);
            assert(args_size(a, i + 1) == args_size(a, i as int) + a[i as int].len() + 1);
            assert(a[i as int] == args@[i as int]@);
        }
        let len = args[i].len();
        let sp = user_sp - (len + 1);
        let ghost mp = mem@;
        proof {
            lemma_args_size_mono(a, 0, i as int);
            lemma_writable_kept(m0, mp, *page_table, low, top, sp as int, sp + len);
        }
        write_user_bytes(page_table, sp, args[i].as_slice(), mem);
        let ghost mq = mem@;
        let zero = vec![0u8];
        proof {
            lemma_writable_kept(m0, mq, *page_table, low, top, sp + len, sp + len + 1);
            lemma_writable_kept(m0, mp, *page_table, low, top, low, top);
        }
        write_user_bytes(page_table, sp + len, zero.as_slice(), mem);
        let ghost mr = mem@;
        proof {
            lemma_writable_kept(m0, mq, *page_table, low, top, low, top);
            assert forall|j: int, k: int|
                0 <= j < i + 1 && 0 <= k <= a[j].len() implies mr[#[trigger] user_addr(m0, root, arg_byte(top, a, j, k))]
                    == if k < a[j].len() {
                    a[j][k]
                } else {
                    0u8
                } by {
                let x = arg_byte(top, a, j, k);
                lemma_args_size_mono(a, 0, j);
                if j < i {
                    lemma_args_size_mono(a, j + 1, i as int);
                    lemma_args_size_mono(a, j, j + 1);
                    assert(args_size(a, j + 1) == args_size(a, j) + a[j].len() + 1);
                    lemma_keep(m0, mp, mq, *page_table, low, top, sp as int, sp + len, x);
                    lemma_keep(m0, mq, mr, *page_table, low, top, sp + len, sp + len + 1, x);
                } else if k < a[j].len() {
                    assert(mq[user_addr(mp, root, sp + k)] == args@[i as int]@[k]);
                    lemma_keep(m0, mq, mr, *page_table, low, top, sp + len, sp + len + 1, x);
                } else {
                    assert(mr[user_addr(mq, root, sp + len + 0)] == zero@[0]);
                }
            }
            assert forall|b: int| 0 <= b < m0.len() && !reached(m0, *page_table, sp as int, base as int, b) implies #[trigger] mr[b] == m0[b] by {
                if reached(m0, *page_table, user_sp as int, base as int, b) {
                    let y = choose|y: int| user_sp <= y < base && #[trigger] user_addr(m0, root, y) == b;
                    assert(reached(m0, *page_table, sp as int, base as int, b));
                }
                if reached(m0, *page_table, sp as int, sp + len, b) {
                    let y = choose|y: int| sp <= y < sp + len && #[trigger] user_addr(m0, root, y) == b;
                    assert(reached(m0, *page_table, sp as int, base as int, b));
                }
                if reached(m0, *page_table, sp + len, sp + len + 1, b) {
                    let y = choose|y: int| sp + len <= y < sp + len + 1 && #[trigger] user_addr(m0, root, y) == b;
                    assert(reached(m0, *page_table, sp as int, base as int, b));
                }
                lemma_keep_rest(m0, mp, mq, *page_table, sp as int, sp + len, b);
                lemma_keep_rest(m0, mq, mr, *page_table, sp + len, sp + len + 1, b);
            }
        }
        starts.push(sp);
        user_sp = sp;
        i += 1;
    }
    let ghost ms = mem@;
    let mut w: usize = 0;
    while w <= n
        invariant
            0 <= w <= n + 1,
            n == args@.len(),
            a == arg_views(args@),
            a.len() == n,
            top == ustack_top,
            root == page_table.root(),
            low == args_low(top, a),
            0 <= low,
            base == argv_base(top, n as int),
            low <= base,
            base + 8 * (n + 1) == top,
            user_sp == low,
            user_range_writable(m0, *page_table, low, top),
            starts@.len() == n,
            forall|j: int| 0 <= j < n ==> #[trigger] starts@[j] == arg_start(top, a, j),
            same_walks(m0, mem@, *page_table),
            forall|j: int, k: int|
                0 <= j < n && 0 <= k <= a[j].len() ==> mem@[#[trigger] user_addr(m0, root, arg_byte(top, a, j, k))]
                    == if k < a[j].len() {
                    a[j][k]
                } else {
                    0u8
                },
            forall|v: int, k: int|
                0 <= v < w && 0 <= k < 8 ==> mem@[#[trigger] user_addr(m0, root, argv_slot(top, n as int, v, k))]
                    == u64_bytes(argv_word(top, a, v))[k],
            forall|b: int| 0 <= b < m0.len() && !reached(m0, *page_table, low, base + 8 * w, b) ==> #[trigger] mem@[b] == m0[b],
        decreases n + 1 - w,
    {
        let v: u64 = if w < n {
            starts[w] as u64
        } else {
            0
        };
        let bytes = u64_to_le_bytes(v);
        let at = base + 8 * w;
        let ghost mp = mem@;
        proof {
            lemma_writable_kept(m0, mp, *page_table, low, top, at as int, at + 8);
            lemma_writable_kept(m0, mp, *page_table, low, top, low, top);
            assert(v == argv_word(top, a, w as int));
        }
        write_user_bytes(page_table, at, bytes.as_slice(), mem);
        let ghost mq = mem@;
        proof {
            assert forall|j: int, k: int|
                0 <= j < n && 0 <= k <= a[j].len() implies mq[#[trigger] user_addr(m0, root, arg_byte(top, a, j, k))]
                    == if k < a[j].len() {
                    a[j][k]
                } else {
                    0u8
                } by {
                lemma_args_size_mono(a, j + 1, n as int);
                lemma_args_size_mono(a, j, j + 1);
                lemma_args_size_mono(a, 0, j);
                assert(args_size(a, j + 1) == args_size(a, j) + a[j].len() + 1);
                lemma_keep(m0, mp, mq, *page_table, low, top, at as int, at + 8, arg_byte(top, a, j, k));
            }
            assert forall|u: int, k: int|
                0 <= u < w + 1 && 0 <= k < 8 implies mq[#[trigger] user_addr(m0, root, argv_slot(top, n as int, u, k))]
                    == u64_bytes(argv_word(top, a, u))[k] by {
                if u < w {
                    lemma_keep(m0, mp, mq, *page_table, low, top, at as int, at + 8, argv_slot(top, n as int, u, k));
                } else {
                    assert(mq[user_addr(mp, root, at + k)] == bytes@[k]);
                }
            }
            assert forall|b: int| 0 <= b < m0.len() && !reached(m0, *page_table, low, base + 8 * (w + 1), b) implies #[trigger] mq[b] == m0[b] by {
                if reached(m0, *page_table, low, base + 8 * w, b) {
                    let y = choose|y: int| low <= y < base + 8 * w && #[trigger] user_addr(m0, root, y) == b;
                    assert(reached(m0, *page_table, low, base + 8 * (w + 1), b));
                }
                if reached(m0, *page_table, at as int, at + 8, b) {
                    let y = choose|y: int| at <= y < at + 8 && #[trigger] user_addr(m0, root, y) == b;
                    assert(reached(m0, *page_table, low, base + 8 * (w + 1), b));
                }
                lemma_keep_rest(m0, mp, mq, *page_table, at as int, at + 8, b);
            }
        }
        w += 1;
    }
    proof {
        assert(base + 8 * (n + 1) == top);
    }
    let sp = user_sp - user_sp % 8;
    (sp, base)
}

/// The trap context a thread starts the new program from after `exec`: at
/// `entry`, on the user stack `user_sp` that `push_args` left, in user mode,
/// with the argument count in `a0` (`x10`) and the address array `argv_base`
/// in `a1` (`x11`), every other register zero.
pub fn exec_context(
    entry: usize,
    user_sp: usize,
    argc: usize,
    argv_base: usize,
    kernel_satp: usize,
    kstack_top: usize,
    trap_handler: usize,
    sstatus: usize,
) -> (r: TrapContext)
    ensures
        r.sepc == entry,
        r.x@[2] == user_sp,
        r.x@[10] == argc,
        r.x@[11] == argv_base,
        forall|i: int| 0 <= i < 32 && i != 2 && i != 10 && i != 11 ==> #[trigger] r.x@[i] == 0,
        r.sstatus == sstatus & !SSTATUS_SPP,
        r.kernel_satp == kernel_satp,
        r.kernel_sp == kstack_top,
        r.trap_handler == trap_handler,
{
    let mut cx = TrapContext::app_init_context(entry, user_sp, kernel_satp, kstack_top, trap_handler, sstatus);
    cx.x[10] = argc;
    cx.x[11] = argv_base;
    cx
}

} // verus!
