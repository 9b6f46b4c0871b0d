//! Zone snapshots of a given size, and the policy that selects them.

use vstd::prelude::*;
use crate::text;
use crate::text::{push_decimal, push_padded};

verus! {

/// How large a snapshot is asked for.
#[derive(Debug, Clone, Copy, PartialEq, Eq, Structural)]
pub struct Scale {
    pub zones: usize,
    pub records_per_zone: usize,
    pub changed_zones: usize,
}

/// Why a scale is refused, if it is.
pub open spec fn scale_error(scale: Scale) -> Option<Seq<char>> {
    if scale.zones == 0 || scale.zones > 10_000 {
        Some("--zones must be in 1..=10000"@)
    } else if scale.records_per_zone < 3 || scale.records_per_zone > 250_000 {
        Some("--records-per-zone must be in 3..=250000"@)
    } else if scale.changed_zones > scale.zones {
        Some("--changed-zones cannot exceed --zones"@)
    } else if scale.zones * scale.records_per_zone > usize::MAX {
        Some("record total overflow"@)
    } else {
        None
    }
}

/// Checks a scale, and tells how many records a snapshot of it holds.
pub fn check_scale(scale: &Scale) -> (result: Result<usize, String>)
    ensures
        match result {
            Ok(total) => scale_error(*scale) is None && total == scale.zones
                * scale.records_per_zone,
            Err(message) => scale_error(*scale) == Some(message@),
        },
{
    if scale.zones == 0 || scale.zones > 10_000 {
        return Err("--zones must be in 1..=10000".to_owned());
    }
    if scale.records_per_zone < 3 || scale.records_per_zone > 250_000 {
        return Err("--records-per-zone must be in 3..=250000".to_owned());
    }
    if scale.changed_zones > scale.zones {
        return Err("--changed-zones cannot exceed --zones".to_owned());
    }
    match scale.zones.checked_mul(scale.records_per_zone) {
        Some(total) => Ok(total),
        None => Err("record total overflow".to_owned()),
    }
}

/// The name of a zone.
pub open spec fn zone_name(index: nat) -> Seq<char> {
    "zone"@ + text::padded(index, 5) + ".example."@
}

/// The name of the file that holds a zone.
pub open spec fn zone_file(index: nat) -> Seq<char> {
    "zone"@ + text::padded(index, 5) + ".zone"@
}

/// The policy up to its zones.
pub open spec fn policy_head(scale: Scale) -> Seq<char> {
    "max_records_total="@ + text::decimal((scale.zones * scale.records_per_zone) as nat)
        + "\nmax_records_per_zone="@ + text::decimal(scale.records_per_zone as nat)
        + "\nmax_include_depth=32\nmax_generate_records=100000\nttl_decrease_percent=50\n"@
}

/// The policy with its first zones.
pub open spec fn policy_lines(scale: Scale, n: nat) -> Seq<char>
    decreases n,
{
    if n == 0 {
        policy_head(scale)
    } else {
        policy_lines(scale, (n - 1) as nat) + "zone="@ + zone_name((n - 1) as nat) + "|"@
            + zone_file((n - 1) as nat) + "|PASS|PASS\n"@
    }
}

/// Appends the name of a zone.
fn push_zone_name(out: &mut String, index: usize)
    ensures
        final(out)@ == old(out)@ + zone_name(index as nat),
{
    out.append("zone");
    push_padded(out, index as u64, 5);
    out.append(".example.");
    assert(out@ =~= old(out)@ + zone_name(index as nat));
}

/// The name of the file that holds a zone.
pub fn zone_file_name(index: usize) -> (name: String)
    ensures
        name@ == zone_file(index as nat),
{
    let mut name = "zone".to_owned();
    push_padded(&mut name, index as u64, 5);
    name.append(".zone");
    name
}

/// The policy that selects every zone of a snapshot.
pub fn policy_text(scale: &Scale) -> (policy: String)
    requires
        scale_error(*scale) is None,
    ensures
        policy@ == policy_lines(*scale, scale.zones as nat),
{
    let total: usize = scale.zones * scale.records_per_zone;
    let mut policy = "max_records_total=".to_owned();
    push_decimal(&mut policy, total as u64);
    policy.append("\nmax_records_per_zone=");
    push_decimal(&mut policy, scale.records_per_zone as u64);
    policy.append(
        "\nmax_include_depth=32\nmax_generate_records=100000\nttl_decrease_percent=50\n",
    );
    let mut index: usize = 0;
    while index < scale.zones
        invariant
            index <= scale.zones,
            policy@ == policy_lines(*scale, index as nat),
        decreases scale.zones - index,
    {
        let ghost before = policy@;
        policy.append("zone=");
        push_zone_name(&mut policy, index);
        policy.append("|");
        let file = zone_file_name(index);
        policy.append(file.as_str());
        policy.append("|PASS|PASS\n");
        assert(policy@ =~= before + "zone="@ + zone_name(index as nat) + "|"@ + zone_file(
            index as nat,
        ) + "|PASS|PASS\n"@);
        index = index + 1;
    }
    policy
}

/// The address of a host, in a zone that changed or in one that did not.
pub open spec fn host_address(zone_index: nat, record_index: nat, changed: bool) -> Seq<char> {
    (if changed {
        "198."@ + text::decimal(18 + zone_index % 2)
    } else {
        "10."@ + text::decimal(zone_index % 250)
    }) + "."@ + text::decimal((record_index / 250) % 250) + "."@ + text::decimal(
        record_index % 250 + 1,
    )
}

/// The first records of a zone.
pub open spec fn zone_head(zone_index: nat, changed: bool) -> Seq<char> {
    "$ORIGIN "@ + zone_name(zone_index) + "\n$TTL 3600\n@ SOA ns hostmaster "@ + (if changed {
        "2"@
    } else {
        "1"@
    }) + " 3600 900 604800 300\n@ NS ns\nns A 192.0.2.1\n"@
}

/// A zone with its first hosts.
pub open spec fn zone_lines(zone_index: nat, changed: bool, n: nat) -> Seq<char>
    decreases n,
{
    if n == 0 {
        zone_head(zone_index, changed)
    } else {
        zone_lines(zone_index, changed, (n - 1) as nat) + "host"@ + text::padded(
            (n - 1) as nat,
            6,
        ) + " A "@ + host_address(zone_index, (n - 1) as nat, changed) + "\n"@
    }
}

fn push_address(out: &mut String, zone_index: usize, record_index: usize, changed: bool)
    ensures
        final(out)@ == old(out)@ + host_address(zone_index as nat, record_index as nat, changed),
{
    if changed {
        out.append("198.");
        push_decimal(out, 18 + zone_index as u64 % 2);
    } else {
        out.append("10.");
        push_decimal(out, zone_index as u64 % 250);
    }
    out.append(".");
    push_decimal(out, (record_index as u64 / 250) % 250);
    out.append(".");
    push_decimal(out, record_index as u64 % 250 + 1);
    assert(out@ =~= old(out)@ + host_address(zone_index as nat, record_index as nat, changed));
}

/// A zone of so many records. One that changed has the next serial number and
/// other addresses.
pub fn zone_text(zone_index: usize, records: usize, changed: bool) -> (zone: String)
    requires
        records >= 3,
    ensures
        zone@ == zone_lines(zone_index as nat, changed, (records - 3) as nat),
{
    let mut zone = "$ORIGIN ".to_owned();
    push_zone_name(&mut zone, zone_index);
    zone.append("\n$TTL 3600\n@ SOA ns hostmaster ");
    zone.append(
        if changed {
            "2"
        } else {
            "1"
        },
    );
    zone.append(" 3600 900 604800 300\n@ NS ns\nns A 192.0.2.1\n");
    let hosts: usize = records - 3;
    let mut index: usize = 0;
    while index < hosts
        invariant
            index <= hosts,
            zone@ == zone_lines(zone_index as nat, changed, index as nat),
        decreases hosts - index,
    {
        let ghost before = zone@;
        zone.append("host");
        push_padded(&mut zone, index as u64, 6);
        zone.append(" A ");
        push_address(&mut zone, zone_index, index, changed);
        zone.append("\n");
        assert(zone@ =~= before + "host"@ + text::padded(index as nat, 6) + " A "@ + host_address(
            zone_index as nat,
            index as nat,
            changed,
        ) + "\n"@);
        index = index + 1;
    }
    zone
}

} // verus!
