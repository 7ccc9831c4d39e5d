//! Columnar storage: building, compressing and reading one column of
//! 4-byte little-endian signed integers.

use vstd::assert_sets_equal;
use vstd::prelude::*;

verus! {

/// The unsigned number held by four little-endian bytes.
pub open spec fn le_word(b0: u8, b1: u8, b2: u8, b3: u8) -> int {
    b0 + 256 * b1 + 65536 * b2 + 16777216 * b3
}

/// The signed 32-bit number held by four little-endian bytes
/// (two's complement).
pub open spec fn le_signed(b0: u8, b1: u8, b2: u8, b3: u8) -> int {
    if le_word(b0, b1, b2, b3) >= 0x8000_0000 {
        le_word(b0, b1, b2, b3) - 0x1_0000_0000
    } else {
        le_word(b0, b1, b2, b3)
    }
}

/// How many complete elements a byte buffer holds; trailing bytes that do
/// not fill a whole element are ignored.
pub open spec fn num_values(data: Seq<u8>) -> int {
    data.len() as int / 4
}

/// The decoded integer at element index `i` of a byte buffer.
pub open spec fn value_at(data: Seq<u8>, i: int) -> int {
    le_signed(data[4 * i], data[4 * i + 1], data[4 * i + 2], data[4 * i + 3])
}

/// `m` is the minimum of the decoded values, or `i32::MAX` when there are none.
pub open spec fn is_min_of(data: Seq<u8>, m: int) -> bool {
    &&& forall|i: int| 0 <= i < num_values(data) ==> m <= #[trigger] value_at(data, i)
    &&& if num_values(data) == 0 {
        m == i32::MAX
    } else {
        exists|i: int| 0 <= i < num_values(data) && m == #[trigger] value_at(data, i)
    }
}

/// `m` is the maximum of the decoded values, or `i32::MIN` when there are none.
pub open spec fn is_max_of(data: Seq<u8>, m: int) -> bool {
    &&& forall|i: int| 0 <= i < num_values(data) ==> m >= #[trigger] value_at(data, i)
    &&& if num_values(data) == 0 {
        m == i32::MIN
    } else {
        exists|i: int| 0 <= i < num_values(data) && m == #[trigger] value_at(data, i)
    }
}

/// Decodes the element at index `idx`.
fn decode_at(data: &Vec<u8>, idx: usize) -> (r: i32)
    requires
        4 * idx + 4 <= data@.len(),
    ensures
        r as int == value_at(data@, idx as int),
{
    let n: usize = data.len();
    proof {
        assert(4 * idx + 4 <= n);
    }
    let b0 = data[4 * idx];
    let b1 = data[4 * idx + 1];
    let b2 = data[4 * idx + 2];
    let b3 = data[4 * idx + 3];
    let w: u32 = b0 as u32 + 256 * (b1 as u32) + 65536 * (b2 as u32) + 16777216 * (b3 as u32);
    if w >= 0x8000_0000 {
        let wide: i64 = w as i64 - 0x1_0000_0000;
        wide as i32
    } else {
        w as i32
    }
}

/// Scans the whole buffer and returns `(min, max)` over the decoded values;
/// an empty buffer keeps the sentinels `(i32::MAX, i32::MIN)`.
fn compute_stats(data: &Vec<u8>) -> (r: (i32, i32))
    ensures
        is_min_of(data@, r.0 as int),
        is_max_of(data@, r.1 as int),
{
    let n = data.len() / 4;
    let mut min: i32 = i32::MAX;
    let mut max: i32 = i32::MIN;
    let mut i: usize = 0;
    while i < n
        invariant
            n == num_values(data@),
            0 <= i <= n,
            forall|j: int| 0 <= j < i ==> min as int <= #[trigger] value_at(data@, j),
            forall|j: int| 0 <= j < i ==> max as int >= #[trigger] value_at(data@, j),
            i == 0 ==> min == i32::MAX && max == i32::MIN,
            i > 0 ==> exists|j: int| 0 <= j < i && min as int == #[trigger] value_at(data@, j),
            i > 0 ==> exists|j: int| 0 <= j < i && max as int == #[trigger] value_at(data@, j),
        decreases n - i,
    {
        let v = decode_at(data, i);
        if v < min {
            min = v;
        }
        if v > max {
            max = v;
        }
        i += 1;
    }
    (min, max)
}

/// The set of decoded integer values a byte buffer holds.
pub open spec fn values_set(data: Seq<u8>) -> Set<int> {
    Set::new(|v: int| exists|i: int| 0 <= i < num_values(data) && value_at(data, i) == v)
}

/// Copies a byte vector.
fn clone_bytes(v: &Vec<u8>) -> (r: Vec<u8>)
    ensures
        r@ == v@,
{
    let r = v.clone();
    proof {
        assert forall|i: int| 0 <= i < v@.len() implies r@[i] == v@[i] by {
            assert(cloned::<u8>(v@[i], r@[i]));
        }
        assert(r@ =~= v@);
    }
    r
}

#[verifier::external_type_specification]
#[verifier::external_body]
pub struct ExIoError(std::io::Error);

/// What `zstd::stream::encode_all` returns at the compression level this
/// store uses; the result depends on the input bytes alone.
pub uninterp spec fn zstd_of(data: Seq<u8>) -> Seq<u8>;

/// Relies on `zstd::stream::encode_all`: compresses the whole buffer as one
/// stream at level 3.
#[verifier::external_body]
fn zstd_encode(data: &Vec<u8>) -> (r: Result<Vec<u8>, std::io::Error>)
    ensures
        r is Ok ==> r->Ok_0@ == zstd_of(data@),
{
    zstd::stream::encode_all(data.as_slice(), 3)
}

/// Relies on `zstd::stream::decode_all`: decoding a buffer produced by
/// `encode_all` yields the bytes that were compressed.
#[verifier::external_body]
fn zstd_decode(data: &Vec<u8>) -> (r: Result<Vec<u8>, std::io::Error>)
    ensures
        forall|orig: Seq<u8>| data@ == zstd_of(orig) ==> r is Ok && r->Ok_0@ == orig,
{
    zstd::stream::decode_all(data.as_slice())
}

#[verifier::external_type_specification]
#[verifier::external_body]
#[verifier::reject_recursive_types(T)]
pub struct ExBloom<T: ?Sized>(bloomfilter::Bloom<T>);

/// The set of values recorded in a membership filter so far.
pub uninterp spec fn bloom_of(b: bloomfilter::Bloom<i32>) -> Set<int>;

/// Relies on `bloomfilter::Bloom::new`: allocates an empty filter sized to
/// `bitmap_bytes` bytes for about `items` items; fails only if no random
/// seed could be drawn from the system.
#[verifier::external_body]
fn bloom_new(bitmap_bytes: usize, items: usize) -> (r: Option<bloomfilter::Bloom<i32>>)
    requires
        bitmap_bytes > 0,
        items > 0,
    ensures
        r is Some ==> bloom_of(r->0) == Set::<int>::empty(),
{
    bloomfilter::Bloom::new(bitmap_bytes, items).ok()
}

/// Relies on `bloomfilter::Bloom::set`: records one value in the filter.
#[verifier::external_body]
fn bloom_set(b: &mut bloomfilter::Bloom<i32>, v: i32)
    ensures
        bloom_of(*final(b)) == bloom_of(*old(b)).insert(v as int),
{
    b.set(&v)
}

/// Relies on `bloomfilter::Bloom::check`: a recorded value is always
/// reported present (there are no false negatives; false positives may
/// occur, so nothing is promised of unrecorded values).
#[verifier::external_body]
fn bloom_check(b: &bloomfilter::Bloom<i32>, v: i32) -> (r: bool)
    ensures
        bloom_of(*b).contains(v as int) ==> r,
{
    b.check(&v)
}

/// An explicit failure outcome of the storage layer.
#[derive(Clone, Copy, Debug, PartialEq, Eq, Structural)]
pub enum StoreError {
    /// The compressor reported an error.
    Compress,
    /// The decompressor reported an error.
    Decompress,
    /// The membership filter could not be allocated.
    Filter,
}

/// Mutable, transient owner of a column's byte buffer before it becomes a
/// `Column`. `raw` keeps the original uncompressed buffer; `data` is the
/// current working buffer, replaced by its compressed form by `compress`.
pub struct ColumnBuilder {
    pub name: String,
    pub data: Vec<u8>,
    pub raw: Vec<u8>,
    pub min: i32,
    pub max: i32,
    pub is_compressed: bool,
}

/// Immutable persisted column: `bytes` is the on-disk image (possibly
/// compressed); `logical` is the uncompressed content it stands for.
pub struct Column {
    pub name: String,
    pub bytes: Vec<u8>,
    pub logical: Ghost<Seq<u8>>,
    pub min: i32,
    pub max: i32,
    pub is_compressed: bool,
    pub filter: bloomfilter::Bloom<i32>,
}

impl ColumnBuilder {
    /// The working buffer matches the original one, compressed or verbatim,
    /// and the statistics describe the original decoded values.
    pub open spec fn wf(self) -> bool {
        &&& if self.is_compressed {
            self.data@ == zstd_of(self.raw@)
        } else {
            self.data@ == self.raw@
        }
        &&& is_min_of(self.raw@, self.min as int)
        &&& is_max_of(self.raw@, self.max as int)
    }

    /// Starts a builder over raw bytes; min/max are computed eagerly over
    /// every complete 4-byte element, ignoring trailing bytes.
    pub fn new(name: String, data: Vec<u8>) -> (b: ColumnBuilder)
        ensures
            b.wf(),
            b.name@ == name@,
            b.raw@ == data@,
            b.data@ == data@,
            !b.is_compressed,
    {
        let stats = compute_stats(&data);
        let raw = clone_bytes(&data);
        ColumnBuilder {
            name,
            data,
            raw,
            min: stats.0,
            max: stats.1,
            is_compressed: false,
        }
    }

    /// Replaces the working buffer with its compressed form; a second call
    /// is a no-op. On failure the builder is left unchanged.
    pub fn compress(&mut self) -> (r: Result<(), StoreError>)
        requires
            old(self).wf(),
        ensures
            final(self).wf(),
            final(self).name == old(self).name,
            final(self).raw == old(self).raw,
            final(self).min == old(self).min,
            final(self).max == old(self).max,
            old(self).is_compressed ==> r is Ok && *final(self) == *old(self),
            !old(self).is_compressed ==> match r {
                Ok(_) => final(self).is_compressed && final(self).data@ == zstd_of(
                    old(self).raw@,
                ),
                Err(e) => *final(self) == *old(self) && e == StoreError::Compress,
            },
    {
        if self.is_compressed {
            return Ok(());
        }
        match zstd_encode(&self.data) {
            Ok(c) => {
                self.data = c;
                self.is_compressed = true;
                Ok(())
            },
            Err(_) => Err(StoreError::Compress),
        }
    }

    /// Consumes the builder and yields the finished column: the current
    /// buffer becomes the persisted image and the membership filter is
    /// built from the original decoded values. Fails only if the filter
    /// cannot be allocated.
    pub fn build(self) -> (r: Result<Column, StoreError>)
        requires
            self.wf(),
        ensures
            match r {
                Ok(c) => {
                    &&& c.wf()
                    &&& c.name@ == self.name@
                    &&& c.bytes@ == self.data@
                    &&& c.logical@ == self.raw@
                    &&& c.min == self.min
                    &&& c.max == self.max
                    &&& c.is_compressed == self.is_compressed
                },
                Err(e) => e == StoreError::Filter,
            },
    {
        let mut filter = match bloom_new(1200, 1000) {
            Some(f) => f,
            None => {
                return Err(StoreError::Filter);
            },
        };
        let n = self.raw.len() / 4;
        let mut i: usize = 0;
        while i < n
            invariant
                n == num_values(self.raw@),
                0 <= i <= n,
                bloom_of(filter) == Set::new(
                    |v: int| exists|j: int| 0 <= j < i && value_at(self.raw@, j) == v,
                ),
            decreases n - i,
        {
            proof {
                assert(4 * i + 4 <= self.raw@.len());
            }
            let v = decode_at(&self.raw, i);
            bloom_set(&mut filter, v);
            proof {
                assert_sets_equal!(
                    bloom_of(filter),
                    Set::new(|w: int| exists|j: int| 0 <= j < i + 1 && value_at(self.raw@, j) == w),
                    w => {
                        if bloom_of(filter).contains(w) {
                        }
                    }
                );
            }
            i += 1;
        }
        proof {
            assert_sets_equal!(bloom_of(filter), values_set(self.raw@));
        }
        Ok(
            Column {
                name: self.name,
                bytes: self.data,
                logical: Ghost(self.raw@),
                min: self.min,
                max: self.max,
                is_compressed: self.is_compressed,
                filter,
            },
        )
    }
}

impl Column {
    /// The image matches the logical content, compressed or verbatim; the
    /// statistics and the filter describe the logical decoded values.
    pub open spec fn wf(self) -> bool {
        &&& if self.is_compressed {
            self.bytes@ == zstd_of(self.logical@)
        } else {
            self.bytes@ == self.logical@
        }
        &&& is_min_of(self.logical@, self.min as int)
        &&& is_max_of(self.logical@, self.max as int)
        &&& values_set(self.logical@) == bloom_of(self.filter)
    }

    /// Returns the full uncompressed payload: a copy of the image when the
    /// column is not compressed, otherwise the image decoded as one unit.
    /// The image is a single compressed stream, so decoding windows of it
    /// independently would not be well-defined; decoding is single-shot.
    pub fn decompress_parallel(&self) -> (r: Result<Vec<u8>, StoreError>)
        requires
            self.wf(),
        ensures
            r is Ok,
            r->Ok_0@ == self.logical@,
    {
        if !self.is_compressed {
            return Ok(clone_bytes(&self.bytes));
        }
        proof {
            assert(self.bytes@ == zstd_of(self.logical@));
        }
        match zstd_decode(&self.bytes) {
            Ok(d) => Ok(d),
            Err(_) => Err(StoreError::Decompress),
        }
    }

    /// Reads the element at index `idx` straight from the uncompressed
    /// image; indexes past the image yield `None`. Compressed columns must
    /// be decompressed before indexed access.
    pub fn get_value(&self, idx: usize) -> (r: Option<i32>)
        requires
            self.wf(),
            !self.is_compressed,
        ensures
            match r {
                Some(v) => idx < num_values(self.logical@) && v as int == value_at(
                    self.logical@,
                    idx as int,
                ),
                None => idx >= num_values(self.logical@),
            },
    {
        let n = self.bytes.len() / 4;
        if idx < n {
            proof {
                assert(4 * (idx as int) + 4 <= 4 * n);
                assert(4 * n <= self.bytes@.len());
            }
            Some(decode_at(&self.bytes, idx))
        } else {
            None
        }
    }

    /// Round-trip storage: any column a builder yields decompresses to
    /// exactly the original bytes the builder was started over, whether or
    /// not the buffer was compressed in between.
    pub proof fn lemma_round_trip_storage(b: ColumnBuilder, c: Column, r: Result<Vec<u8>, StoreError>)
        requires
            b.wf(),
            call_ensures(ColumnBuilder::build, (b,), Ok::<Column, StoreError>(c)),
            call_ensures(Column::decompress_parallel, (&c,), r),
        ensures
            r is Ok,
            r->Ok_0@ == b.raw@,
    {
    }

    /// Asks the membership filter about a value: a value present in the
    /// column is always reported; an absent one may be a false positive.
    pub fn may_contain(&self, v: i32) -> (r: bool)
        requires
            self.wf(),
        ensures
            values_set(self.logical@).contains(v as int) ==> r,
    {
        bloom_check(&self.filter, v)
    }
}

} // verus!

