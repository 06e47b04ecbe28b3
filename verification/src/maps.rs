//! The hash maps with text as keys, which the `fxhash` crate's hasher serves.

use crate::config::{AlertPolicyConfig, ExporterConfig};
use fxhash::FxHashMap;
use vstd::prelude::*;

verus! {

/// `fxhash::FxHasher`, the hasher of the maps; nothing in it is read.
#[verifier::external_type_specification]
#[verifier::external_body]
pub struct ExFxHasher(fxhash::FxHasher);

/// `std::hash::BuildHasherDefault`, by which the maps make their hasher; nothing in it is read.
#[verifier::external_type_specification]
#[verifier::external_body]
#[verifier::reject_recursive_types(H)]
pub struct ExBuildHasherDefault<H>(std::hash::BuildHasherDefault<H>);

/// What a map of labels holds.
pub uninterp spec fn label_map(labels: FxHashMap<String, String>) -> Map<Seq<char>, Seq<char>>;

/// What a map of alert policies holds.
pub uninterp spec fn policy_map(policies: FxHashMap<String, AlertPolicyConfig>) -> Map<
    Seq<char>,
    AlertPolicyConfig,
>;

/// What a map of exporters holds.
pub uninterp spec fn exporter_map(exporters: FxHashMap<String, ExporterConfig>) -> Map<
    Seq<char>,
    ExporterConfig,
>;

/// A copy of a map of labels, by `HashMap::clone`.
#[verifier::external_body]
pub(crate) fn clone_labels(labels: &FxHashMap<String, String>) -> (copy: FxHashMap<String, String>)
    ensures
        label_map(copy) == label_map(*labels),
{
    labels.clone()
}

/// The value of a label, by `HashMap::get`.
#[verifier::external_body]
pub(crate) fn label_value<'a>(labels: &'a FxHashMap<String, String>, key: &str) -> (value: Option<
    &'a String,
>)
    ensures
        match value {
            Some(v) => label_map(*labels).contains_key(key@) && v@ == label_map(*labels)[key@],
            None => !label_map(*labels).contains_key(key@),
        },
{
    labels.get(key)
}

/// The names of the labels, each once and in no given order, by `HashMap::keys`.
#[verifier::external_body]
pub(crate) fn label_keys(labels: &FxHashMap<String, String>) -> (keys: Vec<String>)
    ensures
        keys@.map_values(|k: String| k@).no_duplicates(),
        keys@.map_values(|k: String| k@).to_set() == label_map(*labels).dom(),
{
    labels.keys().cloned().collect()
}

/// The policy of a name, by `HashMap::get`.
#[verifier::external_body]
pub(crate) fn find_policy(policies: &FxHashMap<String, AlertPolicyConfig>, name: &str) -> (policy:
    Option<AlertPolicyConfig>)
    ensures
        match policy {
            Some(p) => policy_map(*policies).contains_key(name@) && p == policy_map(
                *policies,
            )[name@],
            None => !policy_map(*policies).contains_key(name@),
        },
{
    policies.get(name).copied()
}

/// The exporters with their names, each once and in no given order, by `HashMap::iter`.
#[verifier::external_body]
pub(crate) fn exporter_entries(exporters: &FxHashMap<String, ExporterConfig>) -> (entries: Vec<
    (String, ExporterConfig),
>)
    ensures
        entries@.map_values(|e: (String, ExporterConfig)| e.0@).no_duplicates(),
        entries@.map_values(|e: (String, ExporterConfig)| e.0@).to_set() == exporter_map(
            *exporters,
        ).dom(),
        forall|i: int|
            0 <= i < entries@.len() ==> (#[trigger] entries@[i]).1 == exporter_map(
                *exporters,
            )[entries@[i].0@],
{
    exporters.iter().map(|(name, exporter)| (name.clone(), *exporter)).collect()
}

} // verus!
