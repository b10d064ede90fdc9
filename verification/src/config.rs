//! The configuration snapshot handed in at boot, and its validity checks.
//!
//! Parsing the configuration file is the caller's business; the library
//! takes the parsed values and checks the rules the file must obey.

use vstd::prelude::*;

verus! {

/// Store settings: the batch ceiling and the database file.
pub struct ConfigServeDb {
    pub tx_count_max: usize,
    pub file: String,
}

/// One subscribed unit: its topic, quality of service and retention window.
pub struct ConfigMqttUnit {
    pub topic: String,
    pub qos: u8,
    pub count_min: u64,
    pub count_max: u64,
}

/// One group of units, keyed by unit name.
pub struct ConfigServeGroup {
    pub units: Vec<(String, ConfigMqttUnit)>,
}

/// Where user and workspace files live, and the public directory if any.
pub struct ConfigServeDir {
    pub users: String,
    pub wplaces: String,
    pub public: Option<String>,
}

/// A workspace file: the units of each group its users may observe.
pub struct ConfigWplace {
    pub groups: Vec<(String, Vec<String>)>,
}

/// A user file: the credential and the workspace the user belongs to.
pub struct ConfigUser {
    pub password: String,
    pub wplace: String,
}

/// Every unit keeps fewer records than its ceiling: `count_min < count_max`.
pub open spec fn units_retention_valid(units: Seq<(String, ConfigMqttUnit)>) -> bool {
    forall|i: int| 0 <= i < units.len() ==> (#[trigger] units[i]).1.count_min
        < units[i].1.count_max
}

/// Check the retention rule of a unit map: each `count_min` must lie below
/// its `count_max`.
pub fn check_unit_map(units: &Vec<(String, ConfigMqttUnit)>) -> (b: bool)
    ensures
        b == units_retention_valid(units@),
{
    let n = units.len();
    for i in 0..n
        invariant
            n == units@.len(),
            forall|j: int| 0 <= j < i ==> (#[trigger] units@[j]).1.count_min
                < units@[j].1.count_max,
    {
        if units[i].1.count_min >= units[i].1.count_max {
            return false;
        }
    }
    true
}

/// A quality-of-service level is 0, 1 or 2.
pub fn check_qos(qos: u8) -> (b: bool)
    ensures
        b == (qos < 3),
{
    qos < 3
}

} // verus!
