use vstd::prelude::*;

use vstd::arithmetic::div_mod::lemma_fundamental_div_mod;

use crate::palette::{spec_bit_width, Palette};

verus! {

/// Number of voxels in one 16 x 16 x 16 section.
pub const SECTION_VOLUME: usize = 4096;

/// The mask selecting the low `w` bits of a 64-bit word.
pub open spec fn mask64(w: u64) -> u64 {
    if w >= 64 {
        0xFFFF_FFFF_FFFF_FFFFu64
    } else {
        ((1u64 << w) - 1) as u64
    }
}

/// How many `w`-bit values one 64-bit word holds; the remaining high bits are
/// padding.
pub open spec fn per_word(w: u64) -> nat
    recommends
        w >= 1,
{
    (64int / (w as int)) as nat
}

/// The `k`-th `w`-bit value packed in `word`, counted from the least
/// significant bit.
pub open spec fn extract(word: u64, w: u64, k: u64) -> u64
    recommends
        w >= 1,
        (k + 1) * w <= 64,
{
    (word >> ((k * w) as u64)) & mask64(w)
}

/// All values one word holds, in packing order.
pub open spec fn word_ids(word: u64, w: u64) -> Seq<u64>
    recommends
        w >= 1,
{
    Seq::new(per_word(w), |k: int| extract(word, w, k as u64))
}

/// The value stream of a whole packed array: each word contributes its
/// `per_word(w)` values in turn; no value spans two words.
pub open spec fn stream_ids(words: Seq<u64>, w: u64) -> Seq<u64>
    recommends
        w >= 1,
{
    Seq::new(
        words.len() * per_word(w),
        |i: int| extract(words[i / (per_word(w) as int)], w, (i % (per_word(w) as int)) as u64),
    )
}

/// The dense id grid of one section: the first 4096 streamed values, padded
/// with id 0 where the source is exhausted early.
pub open spec fn grid_ids(words: Seq<u64>, w: u64) -> Seq<u64>
    recommends
        w >= 1,
{
    Seq::new(
        SECTION_VOLUME as nat,
        |i: int|
            if i < stream_ids(words, w).len() {
                stream_ids(words, w)[i]
            } else {
                0u64
            },
    )
}

/// One word holding the given values packed at width `w`.
pub open spec fn pack_word(ids: Seq<u64>, w: u64) -> u64
    recommends
        w >= 1,
        ids.len() * w <= 64,
    decreases ids.len(),
{
    if ids.len() == 0 {
        0u64
    } else {
        pack_word(ids.drop_last(), w) | ((ids.last() << ((((ids.len() - 1) * w)) as u64)))
    }
}

/// The packed array encoding the given values at width `w`.
pub open spec fn encode_words(ids: Seq<u64>, w: u64) -> Seq<u64>
    recommends
        w >= 1,
        per_word(w) >= 1,
{
    let per = per_word(w) as int;
    Seq::new(
        (((ids.len() + per - 1) / per) as nat),
        |j: int|
            pack_word(
                ids.subrange(
                    j * per,
                    if (j + 1) * per <= ids.len() {
                        (j + 1) * per
                    } else {
                        ids.len() as int
                    },
                ),
                w,
            ),
    )
}

/// A word of width `w` in `1..=64` holds between 1 and 64 values, and they
/// occupy no more than 64 bits.
proof fn lemma_per_word_bounds(w: u64)
    requires
        1 <= w <= 64,
    ensures
        1 <= per_word(w) <= 64,
        per_word(w) * w <= 64,
        per_word(w) == 64int / (w as int),
{
    lemma_fundamental_div_mod(64, w as int);
    let q = 64int / (w as int);
    let r = 64int % (w as int);
    assert(64 == (w as int) * q + r);
    assert(0 <= r < w);
    assert(1 <= q <= 64 && q * (w as int) <= 64) by (nonlinear_arith)
        requires
            64 == (w as int) * q + r,
            0 <= r < w,
            1 <= w <= 64,
    ;
    assert(per_word(w) == q);
    assert(per_word(w) * w == q * (w as int));
}

proof fn lemma_or_extract_below(a: u64, v: u64, w: u64, s: u64, t: u64)
    requires
        1 <= w <= 63,
        t + w <= 64,
        s + w <= t,
        a <= ((1u64 << t) - 1) as u64,
    ensures
        ((a | (v << t)) >> s) & (((1u64 << w) - 1) as u64) == (a >> s) & (((1u64 << w) - 1)
            as u64),
{
    assert(((a | (v << t)) >> s) & (((1u64 << w) - 1) as u64) == (a >> s) & (((1u64 << w) - 1)
        as u64)) by (bit_vector)
        requires
            1 <= w <= 63,
            t + w <= 64,
            s + w <= t,
            a <= ((1u64 << t) - 1) as u64,
    ;
}

proof fn lemma_or_extract_at(a: u64, v: u64, w: u64, t: u64)
    requires
        1 <= w <= 63,
        t + w <= 64,
        a <= ((1u64 << t) - 1) as u64,
        v <= ((1u64 << w) - 1) as u64,
    ensures
        ((a | (v << t)) >> t) & (((1u64 << w) - 1) as u64) == v,
{
    assert(((a | (v << t)) >> t) & (((1u64 << w) - 1) as u64) == v) by (bit_vector)
        requires
            1 <= w <= 63,
            t + w <= 64,
            a <= ((1u64 << t) - 1) as u64,
            v <= ((1u64 << w) - 1) as u64,
    ;
}

proof fn lemma_or_bound(a: u64, v: u64, w: u64, t: u64)
    requires
        1 <= w <= 63,
        t + w < 64,
        a <= ((1u64 << t) - 1) as u64,
        v <= ((1u64 << w) - 1) as u64,
    ensures
        (a | (v << t)) <= ((1u64 << ((t + w) as u64)) - 1) as u64,
{
    assert((a | (v << t)) <= ((1u64 << ((t + w) as u64)) - 1) as u64) by (bit_vector)
        requires
            1 <= w <= 63,
            t + w < 64,
            a <= ((1u64 << t) - 1) as u64,
            v <= ((1u64 << w) - 1) as u64,
    ;
}

/// Packing values that each fit in `w` bits fills no more than `len * w` low
/// bits of the word.
proof fn lemma_pack_bound(ids: Seq<u64>, w: u64)
    requires
        1 <= w <= 64,
        ids.len() * w <= 64,
        forall|i: int| 0 <= i < ids.len() ==> ids[i] <= mask64(w),
    ensures
        ids.len() * w < 64 ==> pack_word(ids, w) <= ((1u64 << ((ids.len() * w) as u64)) - 1)
            as u64,
    decreases ids.len(),
{
    if ids.len() == 0 {
        assert((1u64 << 0u64) == 1) by (bit_vector);
    } else if ids.len() * w < 64 {
        let n = ids.len() - 1;
        let t = (n * w) as u64;
        let prefix = ids.drop_last();
        let v = ids.last();
        assert(v == ids[n]);
        assert(v <= mask64(w));
        assert forall|i: int| 0 <= i < prefix.len() implies prefix[i] <= mask64(w) by {
            assert(prefix[i] == ids[i]);
        }
        assert(n * w + w == ids.len() * w && n * w >= 0) by (nonlinear_arith)
            requires
                n == ids.len() - 1,
                n >= 0,
                w >= 1,
        ;
        assert(prefix.len() * w == n * w);
        lemma_pack_bound(prefix, w);
        if w == 64 {
            // then ids.len() * w < 64 forces ids.len() == 0, contradiction
            assert(ids.len() * 64 >= 64) by (nonlinear_arith)
                requires
                    ids.len() >= 1,
            ;
        } else {
            let a = pack_word(prefix, w);
            assert(a <= ((1u64 << t) - 1) as u64);
            assert(v <= ((1u64 << w) - 1) as u64);
            assert(t + w < 64);
            lemma_or_bound(a, v, w, t);
            assert(pack_word(ids, w) == a | (v << t));
            assert((t + w) as u64 == ((ids.len() * w)) as u64);
        }
    }
}

/// Extracting position `k` from a packed word returns exactly the value that
/// was packed there.
proof fn lemma_pack_extract(ids: Seq<u64>, w: u64, k: int)
    requires
        1 <= w <= 64,
        ids.len() * w <= 64,
        forall|i: int| 0 <= i < ids.len() ==> ids[i] <= mask64(w),
        0 <= k < ids.len(),
    ensures
        extract(pack_word(ids, w), w, k as u64) == ids[k],
    decreases ids.len(),
{
    let n = ids.len() - 1;
    let prefix = ids.drop_last();
    let v = ids.last();
    let a = pack_word(prefix, w);
    assert(ids.len() <= 64) by (nonlinear_arith)
        requires
            ids.len() * w <= 64,
            w >= 1,
    ;
    assert(v == ids[n]);
    assert(v <= mask64(w));
    assert forall|i: int| 0 <= i < prefix.len() implies prefix[i] <= mask64(w) by {
        assert(prefix[i] == ids[i]);
    }
    assert(n * w + w == ids.len() * w && n * w >= 0) by (nonlinear_arith)
        requires
            n == ids.len() - 1,
            n >= 0,
            w >= 1,
    ;
    assert(prefix.len() * w == n * w);
    if w == 64 {
        // at width 64 a word holds exactly one value
        assert(ids.len() == 1) by (nonlinear_arith)
            requires
                ids.len() * 64 <= 64,
                ids.len() >= 1,
        ;
        assert(k == 0 && n == 0);
        assert(pack_word(prefix, w) == 0u64);
        assert(pack_word(ids, w) == 0u64 | (v << 0u64));
        assert((0u64 | (v << 0u64)) == v) by (bit_vector);
        assert(extract(pack_word(ids, w), w, 0u64) == (v >> 0u64) & 0xFFFF_FFFF_FFFF_FFFFu64);
        assert((v >> 0u64) & 0xFFFF_FFFF_FFFF_FFFFu64 == v) by (bit_vector);
    } else {
        let t = (n * w) as u64;
        assert(n * w < 64);
        lemma_pack_bound(prefix, w);
        assert(a <= ((1u64 << t) - 1) as u64);
        assert(pack_word(ids, w) == a | (v << t));
        assert(mask64(w) == ((1u64 << w) - 1) as u64);
        if k == n {
            lemma_or_extract_at(a, v, w, t);
            assert((k as u64) as int == k);
            assert(((k as u64) * w) as u64 == t);
            assert(extract(pack_word(ids, w), w, k as u64) == ((a | (v << t)) >> t) & (((1u64
                << w) - 1) as u64));
        } else {
            let s = (k * w) as u64;
            assert(k * w + w <= n * w && k * w >= 0) by (nonlinear_arith)
                requires
                    0 <= k < n,
                    w >= 1,
            ;
            lemma_or_extract_below(a, v, w, s, t);
            lemma_pack_extract(prefix, w, k);
            assert(prefix[k] == ids[k]);
            assert((k as u64) as int == k);
            assert(((k as u64) * w) as u64 == s);
            assert(extract(pack_word(ids, w), w, k as u64) == ((a | (v << t)) >> s) & (((1u64
                << w) - 1) as u64));
            assert(extract(a, w, k as u64) == (a >> s) & (((1u64 << w) - 1) as u64));
        }
    }
}

/// Padding bits are never read: two words that agree on their
/// `per_word(w) * w` low bits decode to the same values, whatever their
/// padding holds.
pub proof fn lemma_padding_ignored(x: u64, y: u64, w: u64)
    requires
        1 <= w <= 64,
        x & mask64((per_word(w) * w) as u64) == y & mask64((per_word(w) * w) as u64),
    ensures
        word_ids(x, w) == word_ids(y, w),
{
    let per = per_word(w) as int;
    lemma_per_word_bounds(w);
    let p = (per * w) as u64;
    assert(per * w <= 64);
    assert forall|k: int| 0 <= k < per implies #[trigger] extract(x, w, k as u64) == extract(
        y,
        w,
        k as u64,
    ) by {
        let s = (k * w) as u64;
        assert(k * w + w <= per * w && k * w >= 0) by (nonlinear_arith)
            requires
                0 <= k < per,
                w >= 1,
        ;
        if p == 64 {
            assert(mask64(p) == 0xFFFF_FFFF_FFFF_FFFFu64);
            assert(x & 0xFFFF_FFFF_FFFF_FFFFu64 == x && y & 0xFFFF_FFFF_FFFF_FFFFu64 == y)
                by (bit_vector);
            assert(x == y);
        } else {
            if w == 64 {
                assert(per == 1);
                assert(false);
            }
            assert(mask64(p) == ((1u64 << p) - 1) as u64);
            assert((x >> s) & (((1u64 << w) - 1) as u64) == (y >> s) & (((1u64 << w) - 1)
                as u64)) by (bit_vector)
                requires
                    1 <= w <= 63,
                    s + w <= p,
                    p < 64,
                    x & (((1u64 << p) - 1) as u64) == y & (((1u64 << p) - 1) as u64),
            ;
            assert(mask64(w) == ((1u64 << w) - 1) as u64);
        }
    }
    assert(word_ids(x, w) =~= word_ids(y, w));
}

/// Round trip: packing a full 4096-entry id grid at width `w` and decoding it
/// again reproduces the grid exactly, for every grid whose ids fit in `w`
/// bits.
pub proof fn lemma_round_trip(ids: Seq<u64>, w: u64)
    requires
        1 <= w <= 64,
        ids.len() == SECTION_VOLUME,
        forall|i: int| 0 <= i < ids.len() ==> ids[i] <= mask64(w),
    ensures
        grid_ids(encode_words(ids, w), w) == ids,
{
    let per = per_word(w) as int;
    lemma_per_word_bounds(w);
    assert(per >= 1);
    assert(per * w <= 64);
    let words = encode_words(ids, w);
    let nw = (ids.len() + per - 1) / per;
    assert(words.len() == nw);
    assert(nw * per >= ids.len()) by (nonlinear_arith)
        requires
            per >= 1,
            nw == (ids.len() + per - 1) / per,
    ;
    let stream = stream_ids(words, w);
    assert(stream.len() == nw * per);
    assert forall|i: int| 0 <= i < ids.len() implies stream[i] == ids[i] by {
        let j = i / per;
        let b = i % per;
        lemma_fundamental_div_mod(i, per);
        assert(0 <= b < per);
        assert(i == per * j + b);
        assert(i == j * per + b) by (nonlinear_arith)
            requires
                i == per * j + b,
        ;
        assert(0 <= j < nw) by (nonlinear_arith)
            requires
                i == j * per + b,
                0 <= b < per,
                0 <= i < ids.len(),
                nw * per >= ids.len(),
                per >= 1,
        ;
        let hi = if (j + 1) * per <= ids.len() {
            (j + 1) * per
        } else {
            ids.len() as int
        };
        let chunk = ids.subrange(j * per, hi);
        assert(j * per <= i < hi) by (nonlinear_arith)
            requires
                i == j * per + b,
                0 <= b < per,
                hi == if (j + 1) * per <= ids.len() {
                    (j + 1) * per
                } else {
                    ids.len() as int
                },
                i < ids.len(),
                per >= 1,
        ;
        assert((j + 1) * per == j * per + per) by (nonlinear_arith);
        assert(chunk.len() <= per);
        assert(chunk.len() * w <= per * w) by (nonlinear_arith)
            requires
                chunk.len() <= per,
                w >= 1,
        ;
        assert forall|q: int| 0 <= q < chunk.len() implies chunk[q] <= mask64(w) by {
            assert(chunk[q] == ids[j * per + q]);
        }
        assert(words[j] == pack_word(chunk, w));
        lemma_pack_extract(chunk, w, b);
        assert(chunk[b] == ids[i]);
        assert(stream[i] == extract(words[j], w, b as u64));
    }
    assert(grid_ids(words, w) =~= ids);
}

/// A `Vec`-backed dense array of 4096 voxel ids, indexed as
/// `y * 256 + z * 16 + x`.
pub struct BlocksArray {
    pub contents: Vec<u64>,
}

impl BlocksArray {
    /// A blocks array always holds exactly one id per voxel of a section.
    pub open spec fn wf(self) -> bool {
        self.contents@.len() == SECTION_VOLUME
    }

    /// The id stored for local position `(x, y, z)`.
    pub fn get(&self, x: usize, y: usize, z: usize) -> (r: u64)
        requires
            self.wf(),
            x < 16,
            y < 16,
            z < 16,
        ensures
            r == self.contents@[y * 256 + z * 16 + x],
    {
        let pos = y * 16 * 16 + z * 16 + x;
        self.contents[pos]
    }
}

/// Splits one packed word into its `w`-bit values, low bits first,
/// discarding the word's padding.
pub fn parse_blockstate_val(width: u32, val: u64) -> (r: Vec<u64>)
    requires
        1 <= width <= 64,
    ensures
        r@ == word_ids(val, width as u64),
{
    let mut r: Vec<u64> = Vec::new();
    let count: u32 = 64 / width;
    proof {
        lemma_per_word_bounds(width as u64);
        assert(count == per_word(width as u64));
    }
    let mut k: u32 = 0;
    while k < count
        invariant
            1 <= width <= 64,
            count == per_word(width as u64),
            count * width <= 64,
            k <= count,
            r@.len() == k,
            forall|i: int| 0 <= i < k ==> r@[i] == word_ids(val, width as u64)[i],
        decreases count - k,
    {
        proof {
            assert((k + 1) * width <= count * width && k * width >= 0 && (k + 1) * width == k
                * width + width) by (nonlinear_arith)
                requires
                    0 <= k < count,
                    width >= 1,
            ;
        }
        proof {
            let wd = width as u64;
            assert(wd < 64 ==> (1u64 << wd) >= 1) by (bit_vector);
        }
        let v: u64 = if width >= 64 {
            val
        } else {
            (val >> ((k as u64) * (width as u64))) & ((1u64 << width) - 1)
        };
        proof {
            if width as u64 >= 64 {
                assert(count == 1 && k == 0);
                assert((val >> 0u64) & 0xFFFF_FFFF_FFFF_FFFFu64 == val) by (bit_vector);
            }
            assert(v == extract(val, width as u64, k as u64));
        }
        r.push(v);
        k = k + 1;
    }
    proof {
        assert(r@ =~= word_ids(val, width as u64));
    }
    r
}

/// Decodes a whole packed array into its value stream at the palette's bit
/// width.
pub fn get_block_ids_in_chunk(block_state_array: &Vec<u64>, palette: &Palette) -> (r: Vec<u64>)
    ensures
        r@ == stream_ids(block_state_array@, spec_bit_width(palette.names().len()) as u64),
{
    let width = palette.get_elem_bit_size();
    let ghost w = width as u64;
    let ghost per = per_word(w) as int;
    proof {
        lemma_per_word_bounds(w);
    }
    let mut r: Vec<u64> = Vec::new();
    let mut i: usize = 0;
    while i < block_state_array.len()
        invariant
            4 <= width <= 64,
            w == width as u64,
            per == per_word(w) as int,
            per >= 1,
            i <= block_state_array.len(),
            r@.len() == i * per,
            forall|j: int|
                0 <= j < r@.len() ==> r@[j] == #[trigger] stream_ids(block_state_array@, w)[j],
        decreases block_state_array.len() - i,
    {
        let mut vals = parse_blockstate_val(width, block_state_array[i]);
        let ghost old_r = r@;
        r.append(&mut vals);
        proof {
            assert forall|j: int| old_r.len() <= j < r@.len() implies r@[j] == #[trigger]
            stream_ids(block_state_array@, w)[j] by {
                let b = j - i * per;
                assert(0 <= b < per);
                assert(j == i * per + b);
                assert(j / per == i && j % per == b) by (nonlinear_arith)
                    requires
                        j == i * per + b,
                        0 <= b < per,
                        0 <= i,
                        per >= 1,
                ;
                assert(j < block_state_array@.len() * per) by (nonlinear_arith)
                    requires
                        j == i * per + b,
                        0 <= b < per,
                        i < block_state_array@.len(),
                        per >= 1,
                ;
                assert(r@[j] == word_ids(block_state_array@[i as int], w)[b]);
            }
            assert((i + 1) * per == i * per + per) by (nonlinear_arith);
        }
        i = i + 1;
    }
    proof {
        assert(r@.len() == block_state_array@.len() * per);
        assert(r@ =~= stream_ids(block_state_array@, w));
    }
    r
}

/// Decodes a packed array into the dense 4096-entry grid of one section,
/// padding with id 0 where the stream runs short and dropping surplus values.
pub fn get_blocks_in_chunk(block_state_array: &Vec<u64>, chunk_section_palette: &Palette) -> (r:
    BlocksArray)
    ensures
        r.wf(),
        r.contents@ == grid_ids(
            block_state_array@,
            spec_bit_width(chunk_section_palette.names().len()) as u64,
        ),
{
    let ghost w = spec_bit_width(chunk_section_palette.names().len()) as u64;
    let ids = get_block_ids_in_chunk(block_state_array, chunk_section_palette);
    let mut contents: Vec<u64> = Vec::new();
    let mut idx: usize = 0;
    while idx < SECTION_VOLUME
        invariant
            idx <= SECTION_VOLUME,
            contents@.len() == idx,
            ids@ == stream_ids(block_state_array@, w),
            forall|j: int|
                0 <= j < idx ==> contents@[j] == #[trigger] grid_ids(block_state_array@, w)[j],
        decreases SECTION_VOLUME - idx,
    {
        if idx < ids.len() {
            let v = ids[idx];
            contents.push(v);
        } else {
            contents.push(0);
        }
        idx = idx + 1;
    }
    proof {
        assert(contents@ =~= grid_ids(block_state_array@, w));
    }
    BlocksArray { contents }
}

/// Packs an id stream into 64-bit words at width `width`, exactly as a
/// backing store would lay it out; the inverse of decoding for ids that fit
/// the width.
pub fn encode_ids(ids: &Vec<u64>, width: u32) -> (r: Vec<u64>)
    requires
        1 <= width <= 64,
        forall|i: int| 0 <= i < ids@.len() ==> ids@[i] <= mask64(width as u64),
    ensures
        r@ == encode_words(ids@, width as u64),
{
    let ghost w = width as u64;
    let per: usize = (64 / width) as usize;
    let ghost peri = per_word(w) as int;
    let ghost nw = (ids@.len() + peri - 1) / peri;
    proof {
        lemma_per_word_bounds(w);
        assert(per == peri);
        assert(encode_words(ids@, w).len() == nw);
        assert(nw * peri >= ids@.len()) by (nonlinear_arith)
            requires
                peri >= 1,
                nw == (ids@.len() + peri - 1) / peri,
        ;
    }
    let mut r: Vec<u64> = Vec::new();
    let mut start: usize = 0;
    proof {
        assert(0 * peri == 0) by (nonlinear_arith);
    }
    while start < ids.len()
        invariant
            1 <= width <= 64,
            w == width as u64,
            peri == per_word(w) as int,
            per == peri,
            1 <= peri <= 64,
            peri * w <= 64,
            start <= ids.len(),
            start == r@.len() * peri || (start == ids@.len() && r@.len() == nw),
            nw == (ids@.len() + peri - 1) / peri,
            nw * peri >= ids@.len(),
            forall|i: int| 0 <= i < ids@.len() ==> ids@[i] <= mask64(w),
            forall|j: int| 0 <= j < r@.len() ==> r@[j] == #[trigger] encode_words(ids@, w)[j],
        decreases ids.len() - start,
    {
        let ghost j = r@.len() as int;
        proof {
            assert(start == j * peri);
            assert(j < nw) by (nonlinear_arith)
                requires
                    j * peri < ids@.len(),
                    nw * peri >= ids@.len(),
                    peri >= 1,
                    j >= 0,
            ;
        }
        let end: usize = if ids.len() - start > per {
            start + per
        } else {
            ids.len()
        };
        let ghost hi = if (j + 1) * peri <= ids@.len() {
            (j + 1) * peri
        } else {
            ids@.len() as int
        };
        proof {
            assert((j + 1) * peri == j * peri + peri) by (nonlinear_arith);
            assert(hi == end);
        }
        let mut word: u64 = 0;
        let mut b: usize = start;
        while b < end
            invariant
                1 <= width <= 64,
                w == width as u64,
                peri == per_word(w) as int,
                peri * w <= 64,
                start <= b <= end <= ids@.len(),
                end - start <= peri,
                forall|i: int| 0 <= i < ids@.len() ==> ids@[i] <= mask64(w),
                word == pack_word(ids@.subrange(start as int, b as int), w),
            decreases end - b,
        {
            let ghost sub0 = ids@.subrange(start as int, b as int);
            let ghost sub1 = ids@.subrange(start as int, b as int + 1);
            proof {
                assert(sub1.drop_last() =~= sub0);
                assert(sub1.last() == ids@[b as int]);
                assert((b - start) * w + w <= peri * w && (b - start) * w >= 0)
                    by (nonlinear_arith)
                    requires
                        0 <= b - start < peri,
                        w >= 1,
                ;
            }
            let sh: u32 = ((b - start) as u32) * width;
            let v = ids[b];
            word = word | (v << sh);
            proof {
                assert(((sub1.len() - 1) * w) as u64 == sh as u64);
                assert(word == pack_word(sub1, w));
            }
            b = b + 1;
        }
        proof {
            assert(ids@.subrange(start as int, end as int) =~= ids@.subrange(j * peri, hi));
            assert(word == encode_words(ids@, w)[j]);
        }
        r.push(word);
        start = end;
        proof {
            assert(r@.len() == j + 1);
            if end == (j + 1) * peri {
                assert(start == r@.len() * peri);
            } else {
                // a short final chunk: this word was the last
                assert(end == ids@.len() && ids@.len() < (j + 1) * peri);
                assert(j + 1 == nw) by (nonlinear_arith)
                    requires
                        j * peri < ids@.len(),
                        ids@.len() < (j + 1) * peri,
                        nw == (ids@.len() + peri - 1) / peri,
                        peri >= 1,
                        j >= 0,
                ;
            }
        }
    }
    proof {
        if !(r@.len() == nw) {
            assert(ids@.len() == r@.len() * peri);
            assert(r@.len() == nw) by (nonlinear_arith)
                requires
                    ids@.len() == r@.len() * peri,
                    nw == (ids@.len() + peri - 1) / peri,
                    peri >= 1,
            ;
        }
        assert(r@ =~= encode_words(ids@, w));
    }
    r
}

} // verus!
