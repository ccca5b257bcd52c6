use uuid::Uuid;
use vstd::prelude::*;

use crate::tags::Tags;

verus! {

/// Whether `id`, read as a 128-bit UUID, is a random one of version 4 in
/// the RFC 9562 variant: version bits `0100`, variant bits `10`.
pub open spec fn is_random_v4(id: u128) -> bool {
    &&& (id >> 76u128) & 0xfu128 == 4u128
    &&& (id >> 62u128) & 0x3u128 == 2u128
}

/// Calls `uuid::Uuid::new_v4` and hands back its 128-bit value
/// (`Uuid::as_u128`). `new_v4` masks random bits so that the version field
/// reads 4 and the variant field reads `10`; that is all that is claimed,
/// since the other bits depend on chance.
#[verifier::external_body]
fn random_id() -> (id: u128)
    ensures
        is_random_v4(id),
{
    Uuid::new_v4().as_u128()
}

/// A single sensor reading.
///
/// `id` is the reading's UUID as a 128-bit value (`uuid::Uuid::as_u128`).
/// `value_bits` holds the reading as the bit pattern of its IEEE-754
/// binary64 encoding; the library stores and moves readings but never
/// computes with them.
#[derive(Debug)]
pub struct DataPoint {
    pub id: u128,
    pub sensor_id: String,
    pub value_bits: u64,
    pub timestamp: u64,
    pub tags: Tags,
}

/// What a reading is, as a mathematical value.
pub struct PointModel {
    pub id: u128,
    pub sensor_id: Seq<char>,
    pub value_bits: u64,
    pub timestamp: u64,
    pub tags: Map<Seq<char>, Seq<char>>,
}

impl View for DataPoint {
    type V = PointModel;

    open spec fn view(&self) -> PointModel {
        PointModel {
            id: self.id,
            sensor_id: self.sensor_id@,
            value_bits: self.value_bits,
            timestamp: self.timestamp,
            tags: self.tags@,
        }
    }
}

impl DataPoint {
    /// A reading with a fresh random version-4 identifier and no tags.
    pub fn new(sensor_id: &str, value_bits: u64, timestamp: u64) -> (p: DataPoint)
        ensures
            is_random_v4(p.id),
            p.sensor_id@ == sensor_id@,
            p.value_bits == value_bits,
            p.timestamp == timestamp,
            p.tags@ == Map::<Seq<char>, Seq<char>>::empty(),
    {
        DataPoint {
            id: random_id(),
            sensor_id: sensor_id.to_owned(),
            value_bits,
            timestamp,
            tags: Tags::new(),
        }
    }

    /// The same reading with the tag `k` set to `v`.
    pub fn with_tag(self, k: &str, v: &str) -> (p: DataPoint)
        ensures
            p@ == (PointModel { tags: self@.tags.insert(k@, v@), ..self@ }),
    {
        let mut p = self;
        p.tags.insert(k.to_owned(), v.to_owned());
        p
    }
}

impl Clone for DataPoint {
    fn clone(&self) -> (r: DataPoint)
        ensures
            r@ == self@,
    {
        DataPoint {
            id: self.id,
            sensor_id: self.sensor_id.clone(),
            value_bits: self.value_bits,
            timestamp: self.timestamp,
            tags: self.tags.clone(),
        }
    }
}

} // verus!
