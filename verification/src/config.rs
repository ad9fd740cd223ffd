//! Column-name mapping for the network database and the choice of
//! output format.

use vstd::prelude::*;

verus! {

/// Names of the database columns that hold the network key, the
/// downstream key and the channel geometry. The defaults match the
/// hydrofabric layout.
pub struct ColumnConfig {
    pub key: String,
    pub downstream: String,
    pub dx: String,
    pub n: String,
    pub ncc: String,
    pub s0: String,
    pub bw: String,
    pub tw: String,
    pub twcc: String,
    pub cs: String,
}

impl ColumnConfig {
    /// The default column mapping.
    pub fn new() -> (c: ColumnConfig)
        ensures
            c.key@ == "id"@,
            c.downstream@ == "toid"@,
            c.dx@ == "Length_m"@,
            c.n@ == "n"@,
            c.ncc@ == "nCC"@,
            c.s0@ == "So"@,
            c.bw@ == "BtmWdth"@,
            c.tw@ == "TopWdth"@,
            c.twcc@ == "TopWdthCC"@,
            c.cs@ == "ChSlp"@,
    {
        ColumnConfig {
            key: "id".to_owned(),
            downstream: "toid".to_owned(),
            dx: "Length_m".to_owned(),
            n: "n".to_owned(),
            ncc: "nCC".to_owned(),
            s0: "So".to_owned(),
            bw: "BtmWdth".to_owned(),
            tw: "TopWdth".to_owned(),
            twcc: "TopWdthCC".to_owned(),
            cs: "ChSlp".to_owned(),
        }
    }
}

impl Default for ColumnConfig {
    fn default() -> (c: ColumnConfig)
        ensures
            c.key@ == "id"@,
            c.downstream@ == "toid"@,
            c.dx@ == "Length_m"@,
            c.n@ == "n"@,
            c.ncc@ == "nCC"@,
            c.s0@ == "So"@,
            c.bw@ == "BtmWdth"@,
            c.tw@ == "TopWdth"@,
            c.twcc@ == "TopWdthCC"@,
            c.cs@ == "ChSlp"@,
    {
        ColumnConfig::new()
    }
}

/// Where simulation results are written.
#[derive(Clone, Copy, PartialEq, Eq, Structural)]
pub enum OutputFormat {
    Csv,
    NetCdf,
    Both,
}

} // verus!
