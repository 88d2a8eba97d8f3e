//! Compressed set of document ids, backed by `roaring::RoaringBitmap`.
use roaring::RoaringBitmap;
use vstd::prelude::*;

verus! {

#[verifier::external_type_specification]
#[verifier::external_body]
pub struct ExRoaringBitmap(RoaringBitmap);

/// The set of integers that a roaring bitmap holds.
pub uninterp spec fn roaring_set(b: RoaringBitmap) -> Set<u32>;

/// The bytes that `serialize_into` writes for a roaring bitmap, in the
/// portable roaring format.
pub uninterp spec fn roaring_bytes(b: RoaringBitmap) -> Seq<u8>;

/// Whether a roaring bitmap passes `RoaringBitmap::internal_validate`:
/// container keys strictly increasing and each container's store well
/// formed.
pub uninterp spec fn roaring_valid(b: RoaringBitmap) -> bool;

/// Relies on `RoaringBitmap::new`: the new bitmap is empty, with no
/// container, so it is valid.
pub assume_specification[ RoaringBitmap::new ]() -> (r: RoaringBitmap)
    ensures
        roaring_set(r) == Set::<u32>::empty(),
        roaring_valid(r),
;

/// Relies on `RoaringBitmap::insert`: adds the value, and returns whether it
/// was absent before. It inserts a container at its sorted place and keeps
/// each store well formed, so a valid bitmap stays valid.
pub assume_specification[ RoaringBitmap::insert ](b: &mut RoaringBitmap, value: u32) -> (r: bool)
    ensures
        roaring_set(*final(b)) == roaring_set(*old(b)).insert(value),
        r == !roaring_set(*old(b)).contains(value),
        roaring_valid(*old(b)) ==> roaring_valid(*final(b)),
;

/// Relies on `RoaringBitmap::contains`: membership test.
pub assume_specification[ RoaringBitmap::contains ](b: &RoaringBitmap, value: u32) -> (r: bool)
    ensures
        r == roaring_set(*b).contains(value),
;

/// Relies on `RoaringBitmap::len`: the number of values held.
pub assume_specification[ RoaringBitmap::len ](b: &RoaringBitmap) -> (r: u64)
    ensures
        r as int == roaring_set(*b).len(),
;

/// Relies on `RoaringBitmap::optimize`: it changes each container's storage
/// (run-length encoding where that is smaller), never the values held nor
/// the keys, so a valid bitmap stays valid.
pub assume_specification[ RoaringBitmap::optimize ](b: &mut RoaringBitmap) -> (r: bool)
    ensures
        roaring_set(*final(b)) == roaring_set(*old(b)),
        roaring_valid(*old(b)) ==> roaring_valid(*final(b)),
;

/// Relies on `RoaringBitmap::serialized_size`: the exact number of bytes that
/// `serialize_into` writes.
pub assume_specification[ RoaringBitmap::serialized_size ](b: &RoaringBitmap) -> (r: usize)
    ensures
        r as int == roaring_bytes(*b).len(),
;

/// Relies on `RoaringBitmap::serialize_into`, writing into a `Vec`, which
/// cannot fail.
#[verifier::external_body]
fn roaring_serialize(b: &RoaringBitmap) -> (r: Vec<u8>)
    ensures
        r@ == roaring_bytes(*b),
{
    let mut out = Vec::new();
    b.serialize_into(&mut out).unwrap();
    out
}

/// Relies on `RoaringBitmap::deserialize_from`: it reads back what
/// `serialize_into` wrote for a valid bitmap, with the same values. (It
/// rejects the encoding of an invalid one, such as unsorted keys.)
#[verifier::external_body]
fn roaring_deserialize(bytes: &[u8]) -> (r: Option<RoaringBitmap>)
    ensures
        forall|b: RoaringBitmap|
            roaring_valid(b) && bytes@ == #[trigger] roaring_bytes(b) ==> r.is_some() && roaring_set(
                r.unwrap(),
            ) == roaring_set(b),
{
    RoaringBitmap::deserialize_from(bytes).ok()
}

/// A compressed set of document ids.
pub struct Bitmap {
    bitmap: RoaringBitmap,
}

impl View for Bitmap {
    type V = Set<u32>;

    closed spec fn view(&self) -> Set<u32> {
        roaring_set(self.bitmap)
    }
}

impl Bitmap {
    /// The underlying bitmap is internally valid. Every bitmap built by
    /// `create`, `add` and `run_optimize` is.
    pub closed spec fn valid(&self) -> bool {
        roaring_valid(self.bitmap)
    }

    /// The bytes that `serialize` returns.
    pub closed spec fn serialized(&self) -> Seq<u8> {
        roaring_bytes(self.bitmap)
    }

    /// The empty set.
    pub fn create() -> (r: Bitmap)
        ensures
            r@ == Set::<u32>::empty(),
            r.valid(),
    {
        Bitmap { bitmap: RoaringBitmap::new() }
    }

    /// Adds an element; adding one that is present changes nothing.
    pub fn add(&mut self, element: u32)
        ensures
            final(self)@ == old(self)@.insert(element),
            old(self).valid() ==> final(self).valid(),
    {
        self.bitmap.insert(element);
    }

    /// Lossless compaction of the internal storage, to be run before the
    /// bitmap is measured or serialised.
    pub fn run_optimize(&mut self)
        ensures
            final(self)@ == old(self)@,
            old(self).valid() ==> final(self).valid(),
    {
        self.bitmap.optimize();
    }

    /// Whether `element` is in the set.
    pub fn contains(&self, element: u32) -> (r: bool)
        ensures
            r == self@.contains(element),
    {
        self.bitmap.contains(element)
    }

    /// The number of elements.
    pub fn cardinality(&self) -> (r: u64)
        ensures
            r as int == self@.len(),
    {
        self.bitmap.len()
    }

    /// The exact length of what `serialize` returns.
    pub fn get_serialized_size_in_bytes(&self) -> (r: usize)
        ensures
            r as int == self.serialized().len(),
    {
        self.bitmap.serialized_size()
    }

    /// Deterministic byte encoding of the set.
    pub fn serialize(&self) -> (r: Vec<u8>)
        ensures
            r@ == self.serialized(),
    {
        roaring_serialize(&self.bitmap)
    }

    /// Reads a set back from its encoding. Whatever valid bitmap `b` the
    /// bytes are the encoding of, the result holds exactly the elements of
    /// `b`.
    pub fn deserialize(bytes: &[u8]) -> (r: Option<Bitmap>)
        ensures
            forall|b: Bitmap|
                b.valid() && bytes@ == #[trigger] b.serialized() ==> r.is_some() && r.unwrap()@ == b@,
    {
        match roaring_deserialize(bytes) {
            Some(bitmap) => Some(Bitmap { bitmap }),
            None => None,
        }
    }
}

} // verus!
