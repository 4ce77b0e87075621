use vstd::prelude::*;
use crate::page::{
    NULL_IDX, PagePointer, DIR_KEY_COUNT, DIR_PAGE_T, FREE_PAGE_T, LEAF_PAGE_T,
    LEAF_RECORD_COUNT, META_PAGE_T, PAGE_SIZE,
};
use crate::bplus_tree::{BPlusTree, Page, TreeError};
use crate::tree_spec::{
    chain_ends, chain_pairs, lemma_chain_same, lemma_check_same, lemma_descend_same, same_page, same_store,
};
use crate::dir_page::DirectoryPage;
use crate::free_page::FreePage;
use crate::leaf_page::LeafPage;
use crate::metadata_page::MetadataPage;

verus! {

/// Offset of the key/pointer count of a directory or leaf page.
pub const COUNT_OFF: usize = 1;

/// Offset of a directory page's key array.
pub const DIR_KEYS_OFF: usize = 9;

/// Offset of a directory page's pointer array (after `DIR_KEY_COUNT` keys).
pub const DIR_PTRS_OFF: usize = 1349;

/// Offset of a leaf page's pair array.
pub const LEAF_KV_OFF: usize = 9;

/// Offset of a leaf page's next pointer (after `LEAF_RECORD_COUNT` pairs).
pub const LEAF_NEXT_OFF: usize = 4025;

/// Offset of a leaf page's prev pointer.
pub const LEAF_PREV_OFF: usize = 4033;

/// Offsets of the header fields.
pub const META_FREE_OFF: usize = 1;
pub const META_ROOT_OFF: usize = 9;
pub const META_HEAD_OFF: usize = 17;
pub const META_TAIL_OFF: usize = 25;
pub const META_ALLOC_OFF: usize = 33;
pub const META_DEPTH_OFF: usize = 41;

/// Offset of a free page's successor pointer.
pub const FREE_NEXT_OFF: usize = 1;

/// The little-endian `u32` held by the four bytes from `off`.
pub open spec fn u32_at(b: Seq<u8>, off: int) -> u32 {
    (b[off] as u32) | ((b[off + 1] as u32) << 8u32) | ((b[off + 2] as u32) << 16u32) | ((
    b[off + 3] as u32) << 24u32)
}

/// The little-endian `u64` held by the eight bytes from `off`.
pub open spec fn u64_at(b: Seq<u8>, off: int) -> u64 {
    (b[off] as u64) | ((b[off + 1] as u64) << 8u64) | ((b[off + 2] as u64) << 16u64) | ((
    b[off + 3] as u64) << 24u64) | ((b[off + 4] as u64) << 32u64) | ((b[off + 5] as u64)
        << 40u64) | ((b[off + 6] as u64) << 48u64) | ((b[off + 7] as u64) << 56u64)
}

/// The little-endian `u16` held by the two bytes from `off`.
pub open spec fn u16_at(b: Seq<u8>, off: int) -> u16 {
    (b[off] as u16) | ((b[off + 1] as u16) << 8u16)
}

proof fn lemma_u32_bytes(v: u32, b0: u8, b1: u8, b2: u8, b3: u8)
    requires
        b0 == (v & 0xff) as u8,
        b1 == ((v >> 8u32) & 0xff) as u8,
        b2 == ((v >> 16u32) & 0xff) as u8,
        b3 == ((v >> 24u32) & 0xff) as u8,

    ensures
        (b0 as u32) | ((b1 as u32) << 8u32) | ((b2 as u32) << 16u32) | ((b3 as u32) << 24u32) == v,
{
    assert((b0 as u32) | ((b1 as u32) << 8u32) | ((b2 as u32) << 16u32) | ((b3 as u32) << 24u32) == v) by (bit_vector)
        requires
        b0 == (v & 0xff) as u8,
        b1 == ((v >> 8u32) & 0xff) as u8,
        b2 == ((v >> 16u32) & 0xff) as u8,
        b3 == ((v >> 24u32) & 0xff) as u8;
}

proof fn lemma_u16_bytes(v: u16, b0: u8, b1: u8)
    requires
        b0 == (v & 0xff) as u8,
        b1 == ((v >> 8u16) & 0xff) as u8,

    ensures
        (b0 as u16) | ((b1 as u16) << 8u16) == v,
{
    assert((b0 as u16) | ((b1 as u16) << 8u16) == v) by (bit_vector)
        requires
        b0 == (v & 0xff) as u8,
        b1 == ((v >> 8u16) & 0xff) as u8;
}

proof fn lemma_u64_bytes(v: u64, b0: u8, b1: u8, b2: u8, b3: u8, b4: u8, b5: u8, b6: u8, b7: u8)
    requires
        b0 == (v & 0xff) as u8,
        b1 == ((v >> 8u64) & 0xff) as u8,
        b2 == ((v >> 16u64) & 0xff) as u8,
        b3 == ((v >> 24u64) & 0xff) as u8,
        b4 == ((v >> 32u64) & 0xff) as u8,
        b5 == ((v >> 40u64) & 0xff) as u8,
        b6 == ((v >> 48u64) & 0xff) as u8,
        b7 == ((v >> 56u64) & 0xff) as u8,

    ensures
        (b0 as u64) | ((b1 as u64) << 8u64) | ((b2 as u64) << 16u64) | ((b3 as u64) << 24u64) | ((
        b4 as u64) << 32u64) | ((b5 as u64) << 40u64) | ((b6 as u64) << 48u64) | ((b7 as u64)
            << 56u64) == v,
{
    assert((b0 as u64) | ((b1 as u64) << 8u64) | ((b2 as u64) << 16u64) | ((b3 as u64) << 24u64) | ((
        b4 as u64) << 32u64) | ((b5 as u64) << 40u64) | ((b6 as u64) << 48u64) | ((b7 as u64)
            << 56u64) == v) by (bit_vector)
        requires
        b0 == (v & 0xff) as u8,
        b1 == ((v >> 8u64) & 0xff) as u8,
        b2 == ((v >> 16u64) & 0xff) as u8,
        b3 == ((v >> 24u64) & 0xff) as u8,
        b4 == ((v >> 32u64) & 0xff) as u8,
        b5 == ((v >> 40u64) & 0xff) as u8,
        b6 == ((v >> 48u64) & 0xff) as u8,
        b7 == ((v >> 56u64) & 0xff) as u8;
}

/// Reads the little-endian `u32` at `off`.
pub fn read_u32(b: &[u8], off: usize) -> (r: u32)
    requires
        off + 4 <= b@.len(),
    ensures
        r == u32_at(b@, off as int),
{
    (b[off] as u32) | ((b[off + 1] as u32) << 8u32) | ((b[off + 2] as u32) << 16u32) | ((b[off
        + 3] as u32) << 24u32)
}

/// Reads the little-endian `u64` at `off`.
pub fn read_u64(b: &[u8], off: usize) -> (r: u64)
    requires
        off + 8 <= b@.len(),
    ensures
        r == u64_at(b@, off as int),
{
    (b[off] as u64) | ((b[off + 1] as u64) << 8u64) | ((b[off + 2] as u64) << 16u64) | ((b[off
        + 3] as u64) << 24u64) | ((b[off + 4] as u64) << 32u64) | ((b[off + 5] as u64) << 40u64)
        | ((b[off + 6] as u64) << 48u64) | ((b[off + 7] as u64) << 56u64)
}

/// Reads the little-endian `u16` at `off`.
pub fn read_u16(b: &[u8], off: usize) -> (r: u16)
    requires
        off + 2 <= b@.len(),
    ensures
        r == u16_at(b@, off as int),
{
    (b[off] as u16) | ((b[off + 1] as u16) << 8u16)
}

/// Writes `v` little-endian at `off`, leaving every other byte alone.
pub fn write_u32(b: &mut Vec<u8>, off: usize, v: u32)
    requires
        off + 4 <= old(b)@.len(),
    ensures
        final(b)@.len() == old(b)@.len(),
        u32_at(final(b)@, off as int) == v,
        forall|j: int| 0 <= j < old(b)@.len() && !(off <= j < off + 4) ==> #[trigger] final(b)@[j] == old(b)@[j],
{
    let _len = b.len();
    let b0 = #[verifier::truncate] ((v & 0xff) as u8);
    let b1 = #[verifier::truncate] (((v >> 8u32) & 0xff) as u8);
    let b2 = #[verifier::truncate] (((v >> 16u32) & 0xff) as u8);
    let b3 = #[verifier::truncate] (((v >> 24u32) & 0xff) as u8);
    b.set(off, b0);
    b.set(off + 1, b1);
    b.set(off + 2, b2);
    b.set(off + 3, b3);
    proof {
        lemma_u32_bytes(v, b0, b1, b2, b3);
    }
}

/// Writes `v` little-endian at `off`, leaving every other byte alone.
pub fn write_u64(b: &mut Vec<u8>, off: usize, v: u64)
    requires
        off + 8 <= old(b)@.len(),
    ensures
        final(b)@.len() == old(b)@.len(),
        u64_at(final(b)@, off as int) == v,
        forall|j: int| 0 <= j < old(b)@.len() && !(off <= j < off + 8) ==> #[trigger] final(b)@[j] == old(b)@[j],
{
    let _len = b.len();
    let b0 = #[verifier::truncate] ((v & 0xff) as u8);
    let b1 = #[verifier::truncate] (((v >> 8u64) & 0xff) as u8);
    let b2 = #[verifier::truncate] (((v >> 16u64) & 0xff) as u8);
    let b3 = #[verifier::truncate] (((v >> 24u64) & 0xff) as u8);
    let b4 = #[verifier::truncate] (((v >> 32u64) & 0xff) as u8);
    let b5 = #[verifier::truncate] (((v >> 40u64) & 0xff) as u8);
    let b6 = #[verifier::truncate] (((v >> 48u64) & 0xff) as u8);
    let b7 = #[verifier::truncate] (((v >> 56u64) & 0xff) as u8);
    b.set(off, b0);
    b.set(off + 1, b1);
    b.set(off + 2, b2);
    b.set(off + 3, b3);
    b.set(off + 4, b4);
    b.set(off + 5, b5);
    b.set(off + 6, b6);
    b.set(off + 7, b7);
    proof {
        lemma_u64_bytes(v, b0, b1, b2, b3, b4, b5, b6, b7);
    }
}

/// Writes `v` little-endian at `off`, leaving every other byte alone.
pub fn write_u16(b: &mut Vec<u8>, off: usize, v: u16)
    requires
        off + 2 <= old(b)@.len(),
    ensures
        final(b)@.len() == old(b)@.len(),
        u16_at(final(b)@, off as int) == v,
        forall|j: int| 0 <= j < old(b)@.len() && !(off <= j < off + 2) ==> #[trigger] final(b)@[j] == old(b)@[j],
{
    let _len = b.len();
    let b0 = #[verifier::truncate] ((v & 0xff) as u8);
    let b1 = #[verifier::truncate] (((v >> 8u16) & 0xff) as u8);
    b.set(off, b0);
    b.set(off + 1, b1);
    proof {
        lemma_u16_bytes(v, b0, b1);
    }
}

/// The bytes hold the header's fields.
pub open spec fn meta_fields(b: Seq<u8>, m: MetadataPage) -> bool {
    &&& u64_at(b, META_FREE_OFF as int) == m.next_free_page
    &&& u64_at(b, META_ROOT_OFF as int) == m.root_page
    &&& u64_at(b, META_HEAD_OFF as int) == m.data_head
    &&& u64_at(b, META_TAIL_OFF as int) == m.data_tail
    &&& u64_at(b, META_ALLOC_OFF as int) == m.pages_allocated
    &&& u16_at(b, META_DEPTH_OFF as int) == m.depth
}

/// The key of pair `i` as stored in the bytes of a leaf page.
pub open spec fn leaf_key_at(b: Seq<u8>, i: int) -> u32 {
    u32_at(b, LEAF_KV_OFF + 8 * i)
}

/// The value of pair `i` as stored in the bytes of a leaf page.
pub open spec fn leaf_value_at(b: Seq<u8>, i: int) -> u32 {
    u32_at(b, LEAF_KV_OFF + 8 * i + 4)
}

/// Key `i` as stored in the bytes of a directory page.
pub open spec fn dir_key_at(b: Seq<u8>, i: int) -> u32 {
    u32_at(b, DIR_KEYS_OFF + 4 * i)
}

/// Pointer `i` as stored in the bytes of a directory page.
pub open spec fn dir_ptr_at(b: Seq<u8>, i: int) -> u64 {
    u64_at(b, DIR_PTRS_OFF + 8 * i)
}

/// The bytes hold the leaf's count, pairs and links.
pub open spec fn leaf_fields(b: Seq<u8>, l: LeafPage) -> bool {
    &&& u64_at(b, COUNT_OFF as int) == l@.len()
    &&& forall|i: int| 0 <= i < l@.len() ==> #[trigger] l@[i] == (leaf_key_at(b, i), leaf_value_at(b, i))
    &&& u64_at(b, LEAF_NEXT_OFF as int) == l.next
    &&& u64_at(b, LEAF_PREV_OFF as int) == l.prev
}

/// The bytes hold the directory's count, keys and pointers.
pub open spec fn dir_fields(b: Seq<u8>, d: DirectoryPage) -> bool {
    &&& u64_at(b, COUNT_OFF as int) == d.keys@.len()
    &&& d.pointers@.len() == d.keys@.len() + 1
    &&& forall|i: int| 0 <= i < d.keys@.len() ==> #[trigger] d.keys@[i] == dir_key_at(b, i)
    &&& forall|i: int| 0 <= i < d.pointers@.len() ==> #[trigger] d.pointers@[i] == dir_ptr_at(b, i)
}

/// `b` is a page image of `p`: the page's size, its type tag in byte 0,
/// and its fields at their offsets.
pub open spec fn encodes(b: Seq<u8>, p: Page) -> bool {
    &&& b.len() == PAGE_SIZE
    &&& b[0] == p.tag_spec()
    &&& match p {
        Page::Meta(m) => meta_fields(b, m),
        Page::Dir(d) => dir_fields(b, d),
        Page::Leaf(l) => leaf_fields(b, l),
        Page::Free(f) => u64_at(b, FREE_NEXT_OFF as int) == f.next_free_page,
    }
}

/// Byte `j` of the image of `p` belongs to one of its fields: the tag, the
/// fixed fields, or the used part of a key, pointer or pair array.
pub open spec fn in_field(p: Page, j: int) -> bool {
    match p {
        Page::Meta(_) => j < META_DEPTH_OFF + 2,
        Page::Free(_) => j < FREE_NEXT_OFF + 8,
        Page::Leaf(l) => j < LEAF_KV_OFF + 8 * l@.len() || (LEAF_NEXT_OFF <= j < LEAF_PREV_OFF + 8),
        Page::Dir(d) => j < DIR_KEYS_OFF + 4 * d.keys@.len() || (DIR_PTRS_OFF <= j < DIR_PTRS_OFF + 8
            * d.pointers@.len()),
    }
}

/// Every byte of the image outside the fields of `p` is zero.
pub open spec fn zero_padded(b: Seq<u8>, p: Page) -> bool {
    forall|j: int| 0 <= j < b.len() && !in_field(p, j) ==> #[trigger] b[j] == 0
}

/// `b` is the image of a well-formed page: a page-sized buffer with a
/// known tag whose count fits and whose keys strictly ascend.
pub open spec fn valid_image(b: Seq<u8>) -> bool {
    &&& b.len() == PAGE_SIZE
    &&& {
        let n = u64_at(b, COUNT_OFF as int);
        if b[0] == META_PAGE_T || b[0] == FREE_PAGE_T {
            true
        } else if b[0] == DIR_PAGE_T {
            n <= DIR_KEY_COUNT && forall|i: int, j: int|
                0 <= i < j < n ==> #[trigger] dir_key_at(b, i) < #[trigger] dir_key_at(b, j)
        } else if b[0] == LEAF_PAGE_T {
            n <= LEAF_RECORD_COUNT && forall|i: int, j: int|
                0 <= i < j < n ==> #[trigger] leaf_key_at(b, i) < #[trigger] leaf_key_at(b, j)
        } else {
            false
        }
    }
}

/// Round trip of the codec: the image of a well-formed page is valid, and
/// every page that the image encodes (so every page decoded from it) is the
/// page that was encoded.
pub proof fn lemma_round_trip(p: Page, b: Seq<u8>, q: Page)
    requires
        p.wf(),
        encodes(b, p),
        encodes(b, q),
    ensures
        valid_image(b),
        same_page(p, q),
{
    match p {
        Page::Leaf(l) => {
            match q {
                Page::Leaf(m) => {
                    assert(l@ =~= m@);
                },
                _ => {},
            }
            assert forall|i: int, j: int| 0 <= i < j < u64_at(b, COUNT_OFF as int) implies #[trigger] leaf_key_at(b, i) < #[trigger] leaf_key_at(b, j) by {
                assert(l@[i].0 < l@[j].0);
            }
        },
        Page::Dir(d) => {
            match q {
                Page::Dir(e) => {
                    assert(d.keys@ =~= e.keys@);
                    assert(d.pointers@ =~= e.pointers@);
                },
                _ => {},
            }
            assert forall|i: int, j: int| 0 <= i < j < u64_at(b, COUNT_OFF as int) implies #[trigger] dir_key_at(b, i) < #[trigger] dir_key_at(b, j) by {
                assert(d.keys@[i] < d.keys@[j]);
            }
        },
        _ => {},
    }
}

/// A zero-filled page buffer.
fn zero_page() -> (r: Vec<u8>)
    ensures
        r@.len() == PAGE_SIZE,
        forall|j: int| 0 <= j < PAGE_SIZE ==> #[trigger] r@[j] == 0,
{
    let mut r: Vec<u8> = Vec::new();
    let mut i: usize = 0;
    while i < PAGE_SIZE
        invariant
            i <= PAGE_SIZE,
            r@.len() == i,
            forall|j: int| 0 <= j < i ==> #[trigger] r@[j] == 0,
        decreases PAGE_SIZE - i,
    {
        r.push(0u8);
        i = i + 1;
    }
    r
}

/// Encodes a well-formed page as a `PAGE_SIZE`-byte image: the type tag,
/// then the fields little-endian at fixed offsets, the rest zero.
pub fn encode_page(p: &Page) -> (r: Vec<u8>)
    requires
        p.wf(),
    ensures
        encodes(r@, *p),
        zero_padded(r@, *p),
{
    let mut b = zero_page();
    match p {
        Page::Meta(m) => {
            b.set(0, META_PAGE_T);
            write_u64(&mut b, META_FREE_OFF, m.next_free_page);
            write_u64(&mut b, META_ROOT_OFF, m.root_page);
            write_u64(&mut b, META_HEAD_OFF, m.data_head);
            write_u64(&mut b, META_TAIL_OFF, m.data_tail);
            write_u64(&mut b, META_ALLOC_OFF, m.pages_allocated);
            write_u16(&mut b, META_DEPTH_OFF, m.depth);
        },
        Page::Free(f) => {
            b.set(0, FREE_PAGE_T);
            write_u64(&mut b, FREE_NEXT_OFF, f.next_free_page);
        },
        Page::Leaf(l) => {
            b.set(0, LEAF_PAGE_T);
            write_u64(&mut b, COUNT_OFF, l.key_value.len() as u64);
            let n = l.key_value.len();
            let mut i: usize = 0;
            while i < n
                invariant
                    n == l@.len() <= LEAF_RECORD_COUNT,
                    i <= n,
                    b@.len() == PAGE_SIZE,
                    b@[0] == LEAF_PAGE_T,
                    u64_at(b@, COUNT_OFF as int) == n,
                    forall|j: int| 0 <= j < i ==> #[trigger] l@[j] == (leaf_key_at(b@, j), leaf_value_at(b@, j)),
                    forall|j: int| LEAF_KV_OFF + 8 * i <= j < PAGE_SIZE ==> #[trigger] b@[j] == 0,
                decreases n - i,
            {
                let (k, v) = l.key_value[i];
                let ghost before = b@;
                write_u32(&mut b, LEAF_KV_OFF + 8 * i, k);
                write_u32(&mut b, LEAF_KV_OFF + 8 * i + 4, v);
                proof {
                    assert forall|j: int| 0 <= j < i + 1 implies #[trigger] l@[j] == (leaf_key_at(b@, j), leaf_value_at(b@, j)) by {
                        if j < i {
                            assert(b@[LEAF_KV_OFF + 8 * j] == before[LEAF_KV_OFF + 8 * j]);
                            assert(b@[LEAF_KV_OFF + 8 * j + 1] == before[LEAF_KV_OFF + 8 * j + 1]);
                            assert(b@[LEAF_KV_OFF + 8 * j + 2] == before[LEAF_KV_OFF + 8 * j + 2]);
                            assert(b@[LEAF_KV_OFF + 8 * j + 3] == before[LEAF_KV_OFF + 8 * j + 3]);
                            assert(b@[LEAF_KV_OFF + 8 * j + 4] == before[LEAF_KV_OFF + 8 * j + 4]);
                            assert(b@[LEAF_KV_OFF + 8 * j + 5] == before[LEAF_KV_OFF + 8 * j + 5]);
                            assert(b@[LEAF_KV_OFF + 8 * j + 6] == before[LEAF_KV_OFF + 8 * j + 6]);
                            assert(b@[LEAF_KV_OFF + 8 * j + 7] == before[LEAF_KV_OFF + 8 * j + 7]);
                        }
                    }
                }
                i = i + 1;
            }
            let ghost before = b@;
            write_u64(&mut b, LEAF_NEXT_OFF, l.next);
            write_u64(&mut b, LEAF_PREV_OFF, l.prev);
            proof {
                assert forall|j: int| 0 <= j < n implies #[trigger] l@[j] == (leaf_key_at(b@, j), leaf_value_at(b@, j)) by {
                    assert(b@[LEAF_KV_OFF + 8 * j] == before[LEAF_KV_OFF + 8 * j]);
                    assert(b@[LEAF_KV_OFF + 8 * j + 1] == before[LEAF_KV_OFF + 8 * j + 1]);
                    assert(b@[LEAF_KV_OFF + 8 * j + 2] == before[LEAF_KV_OFF + 8 * j + 2]);
                    assert(b@[LEAF_KV_OFF + 8 * j + 3] == before[LEAF_KV_OFF + 8 * j + 3]);
                    assert(b@[LEAF_KV_OFF + 8 * j + 4] == before[LEAF_KV_OFF + 8 * j + 4]);
                    assert(b@[LEAF_KV_OFF + 8 * j + 5] == before[LEAF_KV_OFF + 8 * j + 5]);
                    assert(b@[LEAF_KV_OFF + 8 * j + 6] == before[LEAF_KV_OFF + 8 * j + 6]);
                    assert(b@[LEAF_KV_OFF + 8 * j + 7] == before[LEAF_KV_OFF + 8 * j + 7]);
                }
            }
        },
        Page::Dir(d) => {
            b.set(0, DIR_PAGE_T);
            write_u64(&mut b, COUNT_OFF, d.keys.len() as u64);
            let n = d.keys.len();
            let mut i: usize = 0;
            while i < n
                invariant
                    n == d.keys@.len() <= DIR_KEY_COUNT,
                    i <= n,
                    b@.len() == PAGE_SIZE,
                    b@[0] == DIR_PAGE_T,
                    u64_at(b@, COUNT_OFF as int) == n,
                    forall|j: int| 0 <= j < i ==> #[trigger] d.keys@[j] == dir_key_at(b@, j),
                    forall|j: int| DIR_KEYS_OFF + 4 * i <= j < PAGE_SIZE ==> #[trigger] b@[j] == 0,
                decreases n - i,
            {
                let ghost before = b@;
                write_u32(&mut b, DIR_KEYS_OFF + 4 * i, d.keys[i]);
                proof {
                    assert forall|j: int| 0 <= j < i + 1 implies #[trigger] d.keys@[j] == dir_key_at(b@, j) by {
                        if j < i {
                            assert(b@[DIR_KEYS_OFF + 4 * j] == before[DIR_KEYS_OFF + 4 * j]);
                            assert(b@[DIR_KEYS_OFF + 4 * j + 1] == before[DIR_KEYS_OFF + 4 * j + 1]);
                            assert(b@[DIR_KEYS_OFF + 4 * j + 2] == before[DIR_KEYS_OFF + 4 * j + 2]);
                            assert(b@[DIR_KEYS_OFF + 4 * j + 3] == before[DIR_KEYS_OFF + 4 * j + 3]);
                        }
                    }
                }
                i = i + 1;
            }
            let m = d.pointers.len();
            let mut i: usize = 0;
            while i < m
                invariant
                    n == d.keys@.len() <= DIR_KEY_COUNT,
                    m == d.pointers@.len() == n + 1,
                    i <= m,
                    b@.len() == PAGE_SIZE,
                    b@[0] == DIR_PAGE_T,
                    u64_at(b@, COUNT_OFF as int) == n,
                    forall|j: int| 0 <= j < n ==> #[trigger] d.keys@[j] == dir_key_at(b@, j),
                    forall|j: int| 0 <= j < i ==> #[trigger] d.pointers@[j] == dir_ptr_at(b@, j),
                    forall|j: int| DIR_KEYS_OFF + 4 * n <= j < PAGE_SIZE && !(DIR_PTRS_OFF <= j < DIR_PTRS_OFF + 8 * i)
                        ==> #[trigger] b@[j] == 0,
                decreases m - i,
            {
                let ghost before = b@;
                write_u64(&mut b, DIR_PTRS_OFF + 8 * i, d.pointers[i]);
                proof {
                    assert forall|j: int| 0 <= j < n implies #[trigger] d.keys@[j] == dir_key_at(b@, j) by {
                        assert(b@[DIR_KEYS_OFF + 4 * j] == before[DIR_KEYS_OFF + 4 * j]);
                        assert(b@[DIR_KEYS_OFF + 4 * j + 1] == before[DIR_KEYS_OFF + 4 * j + 1]);
                        assert(b@[DIR_KEYS_OFF + 4 * j + 2] == before[DIR_KEYS_OFF + 4 * j + 2]);
                        assert(b@[DIR_KEYS_OFF + 4 * j + 3] == before[DIR_KEYS_OFF + 4 * j + 3]);
                    }
                    assert forall|j: int| 0 <= j < i + 1 implies #[trigger] d.pointers@[j] == dir_ptr_at(b@, j) by {
                        if j < i {
                            assert(b@[DIR_PTRS_OFF + 8 * j] == before[DIR_PTRS_OFF + 8 * j]);
                            assert(b@[DIR_PTRS_OFF + 8 * j + 1] == before[DIR_PTRS_OFF + 8 * j + 1]);
                            assert(b@[DIR_PTRS_OFF + 8 * j + 2] == before[DIR_PTRS_OFF + 8 * j + 2]);
                            assert(b@[DIR_PTRS_OFF + 8 * j + 3] == before[DIR_PTRS_OFF + 8 * j + 3]);
                            assert(b@[DIR_PTRS_OFF + 8 * j + 4] == before[DIR_PTRS_OFF + 8 * j + 4]);
                            assert(b@[DIR_PTRS_OFF + 8 * j + 5] == before[DIR_PTRS_OFF + 8 * j + 5]);
                            assert(b@[DIR_PTRS_OFF + 8 * j + 6] == before[DIR_PTRS_OFF + 8 * j + 6]);
                            assert(b@[DIR_PTRS_OFF + 8 * j + 7] == before[DIR_PTRS_OFF + 8 * j + 7]);
                        }
                    }
                }
                i = i + 1;
            }
        },
    }
    b
}

/// Decodes a page image. Fails with `Corrupt` unless the image is valid:
/// page-sized, with a known tag, a count that fits, and ascending keys.
pub fn decode_page(b: &[u8]) -> (r: Result<Page, TreeError>)
    ensures
        r.is_ok() == valid_image(b@),
        r matches Ok(p) ==> p.wf() && encodes(b@, p),
        r matches Err(e) ==> e == TreeError::Corrupt,
{
    if b.len() != PAGE_SIZE {
        return Err(TreeError::Corrupt);
    }
    let tag = b[0];
    if tag == META_PAGE_T {
        let m = MetadataPage {
            next_free_page: read_u64(b, META_FREE_OFF),
            root_page: read_u64(b, META_ROOT_OFF),
            data_head: read_u64(b, META_HEAD_OFF),
            data_tail: read_u64(b, META_TAIL_OFF),
            pages_allocated: read_u64(b, META_ALLOC_OFF),
            depth: read_u16(b, META_DEPTH_OFF),
        };
        Ok(Page::Meta(m))
    } else if tag == FREE_PAGE_T {
        Ok(Page::Free(FreePage { next_free_page: read_u64(b, FREE_NEXT_OFF) }))
    } else if tag == LEAF_PAGE_T {
        let count = read_u64(b, COUNT_OFF);
        if count > LEAF_RECORD_COUNT as u64 {
            return Err(TreeError::Corrupt);
        }
        let n = count as usize;
        let mut kv: Vec<(u32, u32)> = Vec::new();
        let mut i: usize = 0;
        while i < n
            invariant
                b@.len() == PAGE_SIZE,
                n == u64_at(b@, COUNT_OFF as int) <= LEAF_RECORD_COUNT,
                b@[0] == LEAF_PAGE_T,
                i <= n,
                kv@.len() == i,
                forall|j: int| 0 <= j < i ==> #[trigger] kv@[j] == (leaf_key_at(b@, j), leaf_value_at(b@, j)),
                forall|x: int, y: int| 0 <= x < y < i ==> #[trigger] leaf_key_at(b@, x) < #[trigger] leaf_key_at(b@, y),
            decreases n - i,
        {
            let k = read_u32(b, LEAF_KV_OFF + 8 * i);
            let v = read_u32(b, LEAF_KV_OFF + 8 * i + 4);
            if i > 0 && kv[i - 1].0 >= k {
                proof {
                    assert(!(leaf_key_at(b@, i - 1) < leaf_key_at(b@, i as int)));
                }
                return Err(TreeError::Corrupt);
            }
            proof {
                assert forall|x: int, y: int| 0 <= x < y < i + 1 implies #[trigger] leaf_key_at(b@, x) < #[trigger] leaf_key_at(b@, y) by {
                    if y == i && x < i - 1 {
                        assert(leaf_key_at(b@, x) < leaf_key_at(b@, i - 1));
                    }
                }
            }
            kv.push((k, v));
            i = i + 1;
        }
        let l = LeafPage {
            key_value: kv,
            next: read_u64(b, LEAF_NEXT_OFF),
            prev: read_u64(b, LEAF_PREV_OFF),
        };
        proof {
            assert forall|x: int, y: int| 0 <= x < y < l@.len() implies #[trigger] l@[x].0 < #[trigger] l@[y].0 by {
                assert(leaf_key_at(b@, x) < leaf_key_at(b@, y));
            }
        }
        Ok(Page::Leaf(l))
    } else if tag == DIR_PAGE_T {
        let count = read_u64(b, COUNT_OFF);
        if count > DIR_KEY_COUNT as u64 {
            return Err(TreeError::Corrupt);
        }
        let n = count as usize;
        let mut keys: Vec<u32> = Vec::new();
        let mut i: usize = 0;
        while i < n
            invariant
                b@.len() == PAGE_SIZE,
                n == u64_at(b@, COUNT_OFF as int) <= DIR_KEY_COUNT,
                b@[0] == DIR_PAGE_T,
                i <= n,
                keys@.len() == i,
                forall|j: int| 0 <= j < i ==> #[trigger] keys@[j] == dir_key_at(b@, j),
                forall|x: int, y: int| 0 <= x < y < i ==> #[trigger] dir_key_at(b@, x) < #[trigger] dir_key_at(b@, y),
            decreases n - i,
        {
            let k = read_u32(b, DIR_KEYS_OFF + 4 * i);
            if i > 0 && keys[i - 1] >= k {
                proof {
                    assert(!(dir_key_at(b@, i - 1) < dir_key_at(b@, i as int)));
                }
                return Err(TreeError::Corrupt);
            }
            proof {
                assert forall|x: int, y: int| 0 <= x < y < i + 1 implies #[trigger] dir_key_at(b@, x) < #[trigger] dir_key_at(b@, y) by {
                    if y == i && x < i - 1 {
                        assert(dir_key_at(b@, x) < dir_key_at(b@, i - 1));
                    }
                }
            }
            keys.push(k);
            i = i + 1;
        }
        let mut pointers: Vec<PagePointer> = Vec::new();
        let mut j: usize = 0;
        while j <= n
            invariant
                b@.len() == PAGE_SIZE,
                n <= DIR_KEY_COUNT,
                j <= n + 1,
                pointers@.len() == j,
                forall|x: int| 0 <= x < j ==> #[trigger] pointers@[x] == dir_ptr_at(b@, x),
            decreases n + 1 - j,
        {
            pointers.push(read_u64(b, DIR_PTRS_OFF + 8 * j));
            j = j + 1;
        }
        let d = DirectoryPage { keys, pointers };
        proof {
            assert forall|x: int, y: int| 0 <= x < y < d.keys@.len() implies #[trigger] d.keys@[x] < #[trigger] d.keys@[y] by {
                assert(dir_key_at(b@, x) < dir_key_at(b@, y));
            }
        }
        Ok(Page::Dir(d))
    } else {
        Err(TreeError::Corrupt)
    }
}

/// The image of page `i` within a store image.
pub open spec fn page_image(bytes: Seq<u8>, i: int) -> Seq<u8> {
    bytes.subrange(i * PAGE_SIZE, (i + 1) * PAGE_SIZE)
}

/// The store image of a tree: the images of its pages, in page order.
pub fn encode_store(tree: &BPlusTree) -> (r: Vec<u8>)
    requires
        tree.wf(),
    ensures
        store_image(r@, tree.pages@),
        forall|i: int| 0 <= i < tree.pages@.len() ==> zero_padded(#[trigger] page_image(r@, i), tree.pages@[i]),
{
    let mut out: Vec<u8> = Vec::new();
    let mut i: usize = 0;
    while i < tree.pages.len()
        invariant
            tree.wf(),
            i <= tree.pages@.len(),
            out@.len() == i * PAGE_SIZE,
            forall|j: int| 0 <= j < i ==> encodes(#[trigger] page_image(out@, j), tree.pages@[j]),
            forall|j: int| 0 <= j < i ==> zero_padded(#[trigger] page_image(out@, j), tree.pages@[j]),
        decreases tree.pages@.len() - i,
    {
        assert(tree.pages@[i as int].wf());
        let mut img = encode_page(&tree.pages[i]);
        let ghost before = out@;
        let ghost page = img@;
        out.append(&mut img);
        proof {
            assert forall|j: int| 0 <= j < i + 1 implies encodes(#[trigger] page_image(out@, j), tree.pages@[j])
                && zero_padded(page_image(out@, j), tree.pages@[j]) by {
                if j < i {
                    assert(page_image(out@, j) =~= page_image(before, j));
                } else {
                    assert(page_image(out@, j) =~= page);
                }
            }
        }
        i = i + 1;
    }
    out
}

/// Round trip of the store: decoding the image of a tree gives back a tree
/// with the same header and, page for page, the same pages; so the reopened
/// tree finds the same value under every key, passes the consistency check
/// exactly when the encoded tree does, and lists the same pairs along its chain.
pub proof fn lemma_store_round_trip(t: BPlusTree, bytes: Seq<u8>, back: BPlusTree)
    requires
        t.wf(),
        back.wf(),
        bytes.len() == t.pages@.len() * PAGE_SIZE,
        forall|i: int| 0 <= i < t.pages@.len() ==> encodes(#[trigger] page_image(bytes, i), t.pages@[i]),
        bytes.len() == back.pages@.len() * PAGE_SIZE,
        forall|i: int| 0 <= i < back.pages@.len() ==> encodes(#[trigger] page_image(bytes, i), back.pages@[i]),
    ensures
        same_store(t.pages@, back.pages@),
        back.meta == t.meta,
        forall|k: u32| #[trigger] back.lookup_spec(k) == t.lookup_spec(k),
        back.consistent() == t.consistent(),
        chain_pairs(back.pages@, back.meta.data_head, back.pages@.len()) == chain_pairs(t.pages@, t.meta.data_head, t.pages@.len()),
        chain_ends(back.pages@, back.meta.data_head, back.pages@.len()) == chain_ends(t.pages@, t.meta.data_head, t.pages@.len()),
{
    assert(back.pages@.len() == t.pages@.len()) by (nonlinear_arith)
        requires
            back.pages@.len() * PAGE_SIZE == t.pages@.len() * PAGE_SIZE,
    ;
    assert forall|i: int| 0 <= i < t.pages@.len() implies same_page(#[trigger] t.pages@[i], back.pages@[i]) by {
        assert(t.pages@[i].wf());
        lemma_round_trip(t.pages@[i], page_image(bytes, i), back.pages@[i]);
    }
    assert(same_page(t.pages@[0], back.pages@[0]));
    let depth = t.meta.depth as nat;
    assert forall|k: u32| #[trigger] back.lookup_spec(k) == t.lookup_spec(k) by {
        lemma_descend_same(t.pages@, back.pages@, t.meta.root_page, depth, k);
        let l = t.leaf_of(k);
        if l < t.pages@.len() {
            assert(same_page(t.pages@[l as int], back.pages@[l as int]));
        }
    }
    lemma_check_same(t.pages@, back.pages@, depth, t.meta.root_page, 0, 0, None, (NULL_IDX, t.meta.data_head));
    lemma_chain_same(t.pages@, back.pages@, t.meta.data_head, t.pages@.len());
}

/// `bytes` is the store image of `pages`: the page images, in page order.
pub open spec fn store_image(bytes: Seq<u8>, pages: Seq<Page>) -> bool {
    &&& bytes.len() == pages.len() * PAGE_SIZE
    &&& forall|i: int| 0 <= i < pages.len() ==> encodes(#[trigger] page_image(bytes, i), pages[i])
}

/// Reads a tree back from a store image. Fails unless the image is a
/// whole number of valid page images that `BPlusTree::open` accepts; the
/// image of a well-formed tree is always read back.
pub fn decode_store(bytes: &[u8]) -> (r: Result<BPlusTree, TreeError>)
    ensures
        bytes@.len() % PAGE_SIZE as nat != 0 ==> r.is_err(),
        r matches Ok(t) ==> t.wf() && store_image(bytes@, t.pages@),
        (exists|t: BPlusTree| t.wf() && #[trigger] store_image(bytes@, t.pages@)) ==> r.is_ok(),
{
    let ghost owed = exists|t: BPlusTree| t.wf() && #[trigger] store_image(bytes@, t.pages@);
    if bytes.len() % PAGE_SIZE != 0 {
        proof {
            if owed {
                let t = choose|t: BPlusTree| t.wf() && #[trigger] store_image(bytes@, t.pages@);
                let m = t.pages@.len();
                assert((m * PAGE_SIZE) % (PAGE_SIZE as int) == 0) by (nonlinear_arith);
            }
        }
        return Err(TreeError::Corrupt);
    }
    let total = bytes.len();
    let n = total / PAGE_SIZE;
    assert(n * PAGE_SIZE == bytes@.len());
    let mut pages: Vec<Page> = Vec::new();
    let mut i: usize = 0;
    while i < n
        invariant
            n * PAGE_SIZE == bytes@.len(),
            total == bytes@.len(),
            i <= n,
            pages@.len() == i,
            forall|j: int| 0 <= j < i ==> encodes(#[trigger] page_image(bytes@, j), pages@[j]),
            forall|j: int| 0 <= j < i ==> (#[trigger] pages@[j]).wf(),
            owed == exists|t: BPlusTree| t.wf() && #[trigger] store_image(bytes@, t.pages@),
        decreases n - i,
    {
        proof {
            assert((i + 1) * PAGE_SIZE <= n * PAGE_SIZE) by (nonlinear_arith)
                requires
                    i < n,
            ;
        }
        let slice = &bytes[i * PAGE_SIZE..(i + 1) * PAGE_SIZE];
        assert(slice@ == page_image(bytes@, i as int));
        let page = match decode_page(slice) {
            Ok(p) => p,
            Err(e) => {
                proof {
                    if owed {
                        let t = choose|t: BPlusTree| t.wf() && #[trigger] store_image(bytes@, t.pages@);
                        assert(t.pages@.len() == n) by (nonlinear_arith)
                            requires
                                t.pages@.len() * PAGE_SIZE == n * PAGE_SIZE,
                        ;
                        assert(t.pages@[i as int].wf());
                        lemma_round_trip(t.pages@[i as int], page_image(bytes@, i as int), t.pages@[i as int]);
                    }
                }
                return Err(e);
            },
        };
        pages.push(page);
        i = i + 1;
    }
    proof {
        if owed {
            let t = choose|t: BPlusTree| t.wf() && #[trigger] store_image(bytes@, t.pages@);
            assert(t.pages@.len() == n) by (nonlinear_arith)
                requires
                    t.pages@.len() * PAGE_SIZE == n * PAGE_SIZE,
            ;
            assert(t.pages@[0].wf());
            lemma_round_trip(t.pages@[0], page_image(bytes@, 0), pages@[0]);
        }
    }
    let tree = BPlusTree::open(pages)?;
    Ok(tree)
}

} // verus!
