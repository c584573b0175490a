//! The preset registry and the public entry points of the row-distribution
//! engine: creating a named preset from its configuration, and resolving a
//! stress iteration index against a stored preset.

use vstd::prelude::*;
use vstd::string::StringExecFns;

use crate::alternator_error::AlternatorError;
use crate::alternator_error::AlternatorErrorKind;
use crate::preset_build::build_groups;
use crate::preset_build::chars_of;
use crate::preset_build::check_percent_sum;
use crate::preset_build::compute_sizing;
use crate::preset_build::lemma_build_groups_props;
use crate::preset_build::lemma_scan_len;
use crate::preset_build::lemma_sort_desc_props;
use crate::preset_build::lemma_sort_groups_desc_props;
use crate::preset_build::parse_groups;
use crate::preset_build::percent_sum_units;
use crate::preset_build::spec_percent_sum;
use crate::preset_build::spec_units_string;
use crate::preset_build::units_to_string;
use crate::preset_build::reconcile;
use crate::preset_build::sort_desc;
use crate::preset_build::sort_groups_desc;
use crate::preset_build::spec_build_groups;
use crate::preset_build::spec_counts_sizes;
use crate::preset_build::spec_parse_groups;
use crate::preset_build::spec_percent_sum_ok;
use crate::preset_build::spec_prod_sum;
use crate::preset_build::spec_reconcile;
use crate::preset_build::spec_sizing_ok;
use crate::preset_build::spec_sort_desc;
use crate::preset_build::spec_sort_groups_desc;
use crate::row_distribution::group_wf;
use crate::row_distribution::parts_sum_from;
use crate::row_distribution::preset_wf;
use crate::row_distribution::rows_sum_from;
use crate::row_distribution::spec_dists_for;
use crate::row_distribution::spec_partition_info;
use crate::row_distribution::PartitionGroup;
use crate::row_distribution::RowDistributionPreset;
use crate::strutil::eq_str;

verus! {

/// A lightweight cursor describing one resolved partition: its index within
/// the preset and the number of rows expected in it.
#[derive(Clone, Copy, Debug, PartialEq, Eq, Structural)]
pub struct Partition {
    pub idx: u64,
    pub rows_num: u64,
}

/// A name-to-preset store, populated at setup and queried afterwards.
#[derive(Debug)]
pub struct PresetRegistry {
    pub entries: Vec<(String, RowDistributionPreset)>,
}

/// The first index whose entry carries `name`, or the length if none does.
pub open spec fn spec_reg_find(
    es: Seq<(String, RowDistributionPreset)>,
    name: Seq<char>,
) -> int
    decreases es.len(),
{
    if es.len() == 0 {
        0
    } else if es[0].0@ == name {
        0
    } else {
        1 + spec_reg_find(es.skip(1), name)
    }
}

pub proof fn lemma_reg_find_props(es: Seq<(String, RowDistributionPreset)>, name: Seq<char>)
    ensures
        0 <= spec_reg_find(es, name) <= es.len(),
        spec_reg_find(es, name) < es.len() ==> es[spec_reg_find(es, name)].0@ == name,
        forall|i: int| 0 <= i < spec_reg_find(es, name) ==> (#[trigger] es[i]).0@ != name,
    decreases es.len(),
{
    if es.len() != 0 && es[0].0@ != name {
        lemma_reg_find_props(es.skip(1), name);
        assert forall|i: int| 0 <= i < spec_reg_find(es, name) implies (#[trigger] es[i]).0@
            != name by {
            if i > 0 {
                assert(es.skip(1)[i - 1] == es[i]);
            }
        }
        if spec_reg_find(es, name) < es.len() {
            assert(es.skip(1)[spec_reg_find(es, name) - 1] == es[spec_reg_find(es, name)]);
        }
    }
}

/// The lookup depends only on the stored names.
proof fn lemma_reg_find_same_names(
    es1: Seq<(String, RowDistributionPreset)>,
    es2: Seq<(String, RowDistributionPreset)>,
    name: Seq<char>,
)
    requires
        es1.len() == es2.len(),
        forall|i: int| 0 <= i < es1.len() ==> (#[trigger] es1[i]).0@ == es2[i].0@,
    ensures
        spec_reg_find(es1, name) == spec_reg_find(es2, name),
    decreases es1.len(),
{
    if es1.len() != 0 && es1[0].0@ != name {
        assert(forall|i: int|
            0 <= i < es1.len() - 1 ==> (#[trigger] es1.skip(1)[i]).0@ == es1[i + 1].0@);
        assert(forall|i: int|
            0 <= i < es2.len() - 1 ==> (#[trigger] es2.skip(1)[i]).0@ == es2[i + 1].0@);
        lemma_reg_find_same_names(es1.skip(1), es2.skip(1), name);
    }
}

/// Appending an entry with a fresh name makes it the one found under it.
proof fn lemma_reg_find_absent_push(
    es: Seq<(String, RowDistributionPreset)>,
    e: (String, RowDistributionPreset),
    name: Seq<char>,
)
    requires
        forall|i: int| 0 <= i < es.len() ==> (#[trigger] es[i]).0@ != name,
        e.0@ == name,
    ensures
        spec_reg_find(es.push(e), name) == es.len(),
    decreases es.len(),
{
    if es.len() == 0 {
        assert(es.push(e)[0] == e);
    } else {
        assert(es.push(e)[0] == es[0]);
        assert(es.push(e).skip(1) =~= es.skip(1).push(e));
        assert(forall|i: int| 0 <= i < es.len() - 1 ==> #[trigger] es.skip(1)[i] == es[i + 1]);
        lemma_reg_find_absent_push(es.skip(1), e, name);
    }
}

/// The entry stored under `name` in an entry list, if one is.
pub open spec fn spec_lookup(
    es: Seq<(String, RowDistributionPreset)>,
    name: Seq<char>,
) -> Option<RowDistributionPreset> {
    let i = spec_reg_find(es, name);
    if i < es.len() {
        Some(es[i].1)
    } else {
        None
    }
}

/// Appending an entry leaves the lookup of every other name unchanged.
proof fn lemma_reg_find_push_other(
    es: Seq<(String, RowDistributionPreset)>,
    e: (String, RowDistributionPreset),
    other: Seq<char>,
)
    requires
        e.0@ != other,
    ensures
        spec_reg_find(es, other) < es.len() ==> spec_reg_find(es.push(e), other) == spec_reg_find(
            es,
            other,
        ),
        spec_reg_find(es, other) >= es.len() ==> spec_reg_find(es.push(e), other) == es.len() + 1,
    decreases es.len(),
{
    if es.len() == 0 {
        assert(es.push(e)[0] == e);
        assert(es.push(e).skip(1) =~= Seq::<(String, RowDistributionPreset)>::empty());
        assert(spec_reg_find(Seq::<(String, RowDistributionPreset)>::empty(), other) == 0);
        assert(spec_reg_find(es.push(e), other) == 1);
    } else {
        assert(es.push(e)[0] == es[0]);
        if es[0].0@ != other {
            assert(es.push(e).skip(1) =~= es.skip(1).push(e));
            assert(forall|i: int|
                0 <= i < es.len() - 1 ==> #[trigger] es.skip(1)[i] == es[i + 1]);
            lemma_reg_find_push_other(es.skip(1), e, other);
            lemma_reg_find_props(es.skip(1), other);
        }
    }
}

/// The preset stored under `name`, if one is.
pub open spec fn spec_get(r: &PresetRegistry, name: Seq<char>) -> Option<RowDistributionPreset> {
    spec_lookup(r.entries@, name)
}

/// Every stored preset is well formed with at least one group, and names are
/// unique.
pub open spec fn registry_wf(r: &PresetRegistry) -> bool {
    &&& forall|i: int|
        0 <= i < r.entries@.len() ==> preset_wf((#[trigger] r.entries@[i]).1) && r.entries@[
            i
        ].1.partition_groups@.len() >= 1
    &&& forall|i: int, j: int|
        0 <= i < j < r.entries@.len() ==> (#[trigger] r.entries@[i]).0@ != (
        #[trigger] r.entries@[j]).0@
}

impl PresetRegistry {
    /// An empty registry.
    pub fn new() -> (r: PresetRegistry)
        ensures
            r.entries@.len() == 0,
            registry_wf(&r),
    {
        PresetRegistry { entries: Vec::new() }
    }

    /// Whether no preset has been registered yet.
    pub fn is_empty(&self) -> (r: bool)
        ensures
            r == (self.entries@.len() == 0),
    {
        self.entries.len() == 0
    }

    /// The number of registered presets.
    pub fn len(&self) -> (r: usize)
        ensures
            r == self.entries@.len(),
    {
        self.entries.len()
    }

    fn find(&self, name: &str) -> (r: usize)
        ensures
            r == spec_reg_find(self.entries@, name@),
            r <= self.entries@.len(),
    {
        let n = self.entries.len();
        let mut i: usize = 0;
        while i < n
            invariant
                i <= n,
                n == self.entries@.len(),
                forall|j: int| 0 <= j < i ==> (#[trigger] self.entries@[j]).0@ != name@,
            decreases n - i,
        {
            if eq_str(self.entries[i].0.as_str(), name) {
                proof {
                    lemma_reg_find_props(self.entries@, name@);
                    if (i as int) < spec_reg_find(self.entries@, name@) {
                        assert(self.entries@[i as int].0@ != name@);
                    }
                    if spec_reg_find(self.entries@, name@) < i {
                        assert(self.entries@[spec_reg_find(self.entries@, name@)].0@ == name@);
                    }
                }
                return i;
            }
            i = i + 1;
        }
        proof {
            lemma_reg_find_props(self.entries@, name@);
            if spec_reg_find(self.entries@, name@) < n {
                assert(self.entries@[spec_reg_find(self.entries@, name@)].0@ == name@);
            }
        }
        n
    }

    /// Looks a preset up by name.
    pub fn get(&self, name: &str) -> (r: Option<&RowDistributionPreset>)
        ensures
            r is Some <==> spec_get(self, name@) is Some,
            r matches Some(p) ==> spec_get(self, name@) == Some(*p),
    {
        let i = self.find(name);
        if i < self.entries.len() {
            Some(&self.entries[i].1)
        } else {
            None
        }
    }

    /// Stores `preset` under `name`, replacing an existing preset of that
    /// name.
    pub fn insert(&mut self, name: String, preset: RowDistributionPreset)
        requires
            registry_wf(old(self)),
            preset_wf(preset),
            preset.partition_groups@.len() >= 1,
        ensures
            registry_wf(final(self)),
            spec_get(final(self), name@) == Some(preset),
            ({
                let i = spec_reg_find(old(self).entries@, name@);
                if i < old(self).entries@.len() {
                    final(self).entries@ == old(self).entries@.update(i, (name, preset))
                } else {
                    final(self).entries@ == old(self).entries@.push((name, preset))
                }
            }),
            forall|other: Seq<char>|
                other != name@ ==> #[trigger] spec_get(final(self), other) == spec_get(
                    old(self),
                    other,
                ),
    {
        let ghost es0 = self.entries@;
        let i = self.find(name.as_str());
        proof {
            lemma_reg_find_props(es0, name@);
        }
        if i < self.entries.len() {
            self.entries.set(i, (name, preset));
            proof {
                let es1 = self.entries@;
                assert(forall|j: int| 0 <= j < es1.len() ==> (#[trigger] es1[j]).0@ == es0[j].0@);
                lemma_reg_find_same_names(es1, es0, name@);
                assert forall|other: Seq<char>| other != name@ implies #[trigger] spec_lookup(
                    es1,
                    other,
                ) == spec_lookup(es0, other) by {
                    lemma_reg_find_same_names(es1, es0, other);
                    lemma_reg_find_props(es0, other);
                    let f = spec_reg_find(es0, other);
                    if f < es0.len() {
                        assert(es0[f].0@ == other);
                        assert(es0[i as int].0@ == name@);
                        assert(es1[f] == es0[f]);
                    }
                }
            }
        } else {
            proof {
                lemma_reg_find_absent_push(es0, (name, preset), name@);
            }
            self.entries.push((name, preset));
            proof {
                let es1 = self.entries@;
                assert forall|a: int, b: int| 0 <= a < b < es1.len() implies (
                #[trigger] es1[a]).0@ != (#[trigger] es1[b]).0@ by {
                    if b < es1.len() - 1 {
                        assert(es1[a] == es0[a] && es1[b] == es0[b]);
                    } else {
                        assert(es1[a] == es0[a] && es1[b].0@ == name@);
                        assert(es0[a].0@ != name@);
                    }
                }
                assert forall|other: Seq<char>| other != name@ implies #[trigger] spec_lookup(
                    es1,
                    other,
                ) == spec_lookup(es0, other) by {
                    lemma_reg_find_push_other(es0, (name, preset), other);
                    lemma_reg_find_props(es0, other);
                    let f = spec_reg_find(es0, other);
                    if f < es0.len() {
                        assert(es1[f] == es0[f]);
                    }
                }
            }
        }
    }
}

/// The group string actually parsed: an empty configuration defaults to one
/// group of one hundred percent at the base size.
pub open spec fn spec_effective_groups(s: Seq<char>) -> Seq<char> {
    if s.len() == 0 {
        "100:1"@
    } else {
        s
    }
}

/// The partition groups a preset configuration produces, if it is valid: the
/// parsed pairs must pass the percent-sum check, the sizing bounds, and the
/// reconciliation of the sorted table against the requested row count.
pub open spec fn spec_init_groups(rc: u64, base: u64, s: Seq<char>) -> Option<
    Seq<PartitionGroup>,
> {
    match spec_parse_groups(spec_effective_groups(s)) {
        Err(_) => None,
        Ok(ps) => if !spec_percent_sum_ok(ps) {
            None
        } else if !spec_sizing_ok(rc, base, ps) {
            None
        } else {
            match spec_reconcile(spec_sort_desc(spec_counts_sizes(rc, base, ps)), rc) {
                None => None,
                Some(vs) => Some(spec_sort_groups_desc(spec_build_groups(vs))),
            }
        },
    }
}

/// The message of a rejected percent sum, naming the actual sum.
pub open spec fn spec_percent_sum_error_message(sum: int) -> Seq<char> {
    "init_partition_row_distribution_preset: summary of partition percentage must be '100'. Got '"@
        + spec_units_string(sum) + "' instead"@
}

/// Whether a preset creation with these inputs succeeds.
pub open spec fn spec_init_ok(name: Seq<char>, rc: u64, base: u64, s: Seq<char>) -> bool {
    name.len() >= 1 && rc >= 1 && base >= 1 && spec_init_groups(rc, base, s) is Some
}

/// Creates a preset for uneven row distribution among partitions and stores
/// it under `preset_name`.
///
/// The groups string holds comma-separated `percent:multiplier` pairs
/// (default `100:1`): for each pair, partitions of
/// `floor(base * multiplier)` rows take `percent` of the partition count.
/// The resulting groups always cover exactly `row_count` rows.
pub fn init_partition_row_distribution_preset(
    registry: &mut PresetRegistry,
    preset_name: &str,
    row_count: u64,
    rows_per_partitions_base: u64,
    rows_per_partitions_groups: &str,
) -> (r: Result<(), AlternatorError>)
    requires
        registry_wf(old(registry)),
    ensures
        registry_wf(final(registry)),
        r is Ok <==> spec_init_ok(
            preset_name@,
            row_count,
            rows_per_partitions_base,
            rows_per_partitions_groups@,
        ),
        r matches Err(e) ==> e.0 is Error && final(registry).entries@ == old(registry).entries@,
        ({
            let eff = spec_effective_groups(rows_per_partitions_groups@);
            match spec_parse_groups(eff) {
                Ok(ps) => (preset_name@.len() >= 1 && row_count >= 1 && rows_per_partitions_base
                    >= 1 && !spec_percent_sum_ok(ps)) ==> (r matches Err(e) && (e.0 matches
                AlternatorErrorKind::Error(m) && m@ == spec_percent_sum_error_message(
                    spec_percent_sum(ps),
                ))),
                Err(_) => true,
            }
        }),
        r is Ok ==> ({
            let groups = spec_init_groups(
                row_count,
                rows_per_partitions_base,
                rows_per_partitions_groups@,
            ).unwrap();
            &&& spec_get(final(registry), preset_name@) matches Some(p)
            &&& p.partition_groups@ == groups
            &&& p.total_rows == row_count
            &&& preset_wf(p)
            &&& p.row_distributions@.len() == groups.len()
            &&& forall|i: int|
                0 <= i < groups.len() ==> #[trigger] p.row_distributions@[i] == spec_dists_for(
                    groups[i].n_rows_per_group,
                    rows_sum_from(groups, i + 1) as u64,
                )
        }),
        r is Ok ==> forall|other: Seq<char>|
            other != preset_name@ ==> #[trigger] spec_get(final(registry), other) == spec_get(
                old(registry),
                other,
            ),
        r is Ok ==> ({
            let i = spec_reg_find(old(registry).entries@, preset_name@);
            if i < old(registry).entries@.len() {
                final(registry).entries@.len() == old(registry).entries@.len()
            } else {
                final(registry).entries@.len() == old(registry).entries@.len() + 1
            }
        }),
{
    if preset_name.is_empty() {
        return Err(
            AlternatorError::new(
                AlternatorErrorKind::Error(
                    String::from_str(
                        "init_partition_row_distribution_preset: 'preset_name' cannot be empty",
                    ),
                ),
            ),
        );
    }
    if row_count < 1 {
        return Err(
            AlternatorError::new(
                AlternatorErrorKind::Error(
                    String::from_str(
                        "init_partition_row_distribution_preset: 'row_count' cannot be less than 1",
                    ),
                ),
            ),
        );
    }
    if rows_per_partitions_base < 1 {
        return Err(
            AlternatorError::new(
                AlternatorErrorKind::Error(
                    String::from_str(
                        "init_partition_row_distribution_preset: 'rows_per_partitions_base' cannot be less than 1",
                    ),
                ),
            ),
        );
    }
    let effective: &str = if rows_per_partitions_groups.is_empty() {
        "100:1"
    } else {
        rows_per_partitions_groups
    };
    let chars = chars_of(effective);
    let pairs = match parse_groups(&chars) {
        Ok(ps) => ps,
        Err((_, dup)) => {
            if dup {
                return Err(
                    AlternatorError::new(
                        AlternatorErrorKind::Error(
                            String::from_str(
                                "init_partition_row_distribution_preset: found duplicates pairs",
                            ),
                        ),
                    ),
                );
            } else {
                return Err(
                    AlternatorError::new(
                        AlternatorErrorKind::Error(
                            String::from_str(
                                "init_partition_row_distribution_preset: wrong sub-value provided in the 'rows_per_partitions_groups' parameter. It must be a set of numeric pairs separated with a ':' symbol. Example: '49.1:1,49:2,1.9:2.5'",
                            ),
                        ),
                    ),
                );
            }
        },
    };
    proof {
        lemma_scan_len(spec_effective_groups(rows_per_partitions_groups@), 0, Seq::empty());
    }
    if !check_percent_sum(&pairs) {
        let sum = percent_sum_units(&pairs);
        let mut msg = String::from_str(
            "init_partition_row_distribution_preset: summary of partition percentage must be '100'. Got '",
        );
        msg.append(units_to_string(sum).as_str());
        msg.append("' instead");
        proof {
            assert(msg@ =~= spec_percent_sum_error_message(spec_percent_sum(pairs@)));
        }
        return Err(AlternatorError::new(AlternatorErrorKind::Error(msg)));
    }
    let sized = match compute_sizing(row_count, rows_per_partitions_base, &pairs) {
        Ok(v) => v,
        Err(()) => {
            return Err(
                AlternatorError::new(
                    AlternatorErrorKind::Error(
                        String::from_str(
                            "init_partition_row_distribution_preset: partition sizing left the supported range",
                        ),
                    ),
                ),
            );
        },
    };
    let (counts_sizes, _actual) = sized;
    let mut table = sort_desc(&counts_sizes);
    proof {
        lemma_sort_desc_props(counts_sizes@);
    }
    match reconcile(&mut table, row_count) {
        Ok(()) => {},
        Err(()) => {
            return Err(
                AlternatorError::new(
                    AlternatorErrorKind::Error(
                        String::from_str(
                            "init_partition_row_distribution_preset: could not reconcile the partition groups with 'row_count'",
                        ),
                    ),
                ),
            );
        },
    }
    let groups_unsorted = build_groups(&table);
    proof {
        lemma_build_groups_props(table@);
    }
    let groups = sort_groups_desc(&groups_unsorted);
    proof {
        lemma_sort_groups_desc_props(groups_unsorted@);
        assert(rows_sum_from(groups@, 0) == row_count);
    }
    proof {
        if groups@.len() == 0 {
            assert(rows_sum_from(groups@, 0) == 0);
        }
    }
    let mut preset = RowDistributionPreset::new(groups);
    preset.generate_row_distributions();
    let reg_name = String::from_str(preset_name);
    proof {
        assert(reg_name@ == preset_name@);
        assert(spec_reg_find(registry.entries@, reg_name@) == spec_reg_find(
            registry.entries@,
            preset_name@,
        ));
        assert(preset.partition_groups@ == groups@);
        assert(preset.row_distributions@.len() == groups@.len());
        assert(forall|i: int|
            0 <= i < groups@.len() ==> #[trigger] preset.row_distributions@[i] == spec_dists_for(
                groups@[i].n_rows_per_group,
                rows_sum_from(groups@, i + 1) as u64,
            ));
    }
    let ghost es_before = registry.entries@;
    proof {
        assert(es_before == old(registry).entries@);
    }
    registry.insert(reg_name, preset);
    proof {
        lemma_reg_find_props(es_before, reg_name@);
        let i0 = spec_reg_find(es_before, reg_name@);
        assert(i0 == spec_reg_find(es_before, preset_name@));
        if i0 < es_before.len() {
            assert(registry.entries@ == es_before.update(i0, (reg_name, preset)));
            assert(registry.entries@.len() == es_before.len());
        } else {
            assert(registry.entries@ == es_before.push((reg_name, preset)));
            assert(registry.entries@.len() == es_before.len() + 1);
        }
    }
    Ok(())
}

/// Returns the partition index and its expected row count for one stress
/// iteration index, resolved against the named preset.
pub fn get_partition_info(registry: &PresetRegistry, preset_name: &str, idx: u64) -> (r: Result<
    (u64, u64),
    AlternatorError,
>)
    requires
        registry_wf(registry),
    ensures
        r is Ok <==> spec_get(registry, preset_name@) is Some,
        r matches Err(e) ==> e.0 matches AlternatorErrorKind::PartitionRowPresetNotFound(s)
            && s@ == preset_name@,
        r matches Ok(v) ==> ({
            let p = spec_get(registry, preset_name@).unwrap();
            spec_partition_info(p, idx as int) == Some((v.0 as int, v.1 as int)) && v.0
                < parts_sum_from(p.partition_groups@, 0) && v.1 >= 1
        }),
{
    proof {
        lemma_reg_find_props(registry.entries@, preset_name@);
    }
    match registry.get(preset_name) {
        None => Err(
            AlternatorError::new(
                AlternatorErrorKind::PartitionRowPresetNotFound(String::from_str(preset_name)),
            ),
        ),
        Some(preset) => {
            let (pidx, rows) = preset.get_partition_info(idx);
            Ok((pidx, rows))
        },
    }
}

/// Returns only the partition index for one stress iteration index.
pub fn get_partition_idx(registry: &PresetRegistry, preset_name: &str, idx: u64) -> (r: Result<
    u64,
    AlternatorError,
>)
    requires
        registry_wf(registry),
    ensures
        r is Ok <==> spec_get(registry, preset_name@) is Some,
        r matches Ok(v) ==> ({
            let p = spec_get(registry, preset_name@).unwrap();
            spec_partition_info(p, idx as int) matches Some(pr) && pr.0 == v as int
        }),
        r matches Err(e) ==> e.0 matches AlternatorErrorKind::PartitionRowPresetNotFound(s)
            && s@ == preset_name@,
{
    match get_partition_info(registry, preset_name, idx) {
        Ok((pidx, rows)) => {
            proof {
                let p = spec_get(registry, preset_name@).unwrap();
                assert(spec_partition_info(p, idx as int) == Some((pidx as int, rows as int)));
            }
            Ok(pidx)
        },
        Err(e) => Err(e),
    }
}

} // verus!
