//! How the registered catalogs fared when they were last read.

use vstd::prelude::*;
use crate::catalog::CatalogIndex;
use crate::model::copy_opt;
use crate::name_map::{lemma_walk, walk, NameMap, NameSet};
use crate::text::{begins, cat2, opt_view, starts_with, Text};

verus! {

#[derive(Debug, Clone, Copy, PartialEq, Eq, Structural)]
pub enum CatalogAvailability {
    Available,
    Stale,
    Unavailable,
}

pub open spec fn availability_text(a: CatalogAvailability) -> Text {
    match a {
        CatalogAvailability::Available => "available"@,
        CatalogAvailability::Stale => "stale"@,
        CatalogAvailability::Unavailable => "unavailable"@,
    }
}

impl CatalogAvailability {
    pub fn label(self) -> (r: &'static str)
        ensures
            r@ == availability_text(self),
    {
        match self {
            CatalogAvailability::Available => "available",
            CatalogAvailability::Stale => "stale",
            CatalogAvailability::Unavailable => "unavailable",
        }
    }
}

#[derive(Debug)]
pub struct CatalogStatus {
    pub alias: String,
    pub availability: CatalogAvailability,
    pub warning: Option<String>,
    /// The last content that was read, where it is stale.
    pub catalog: Option<CatalogIndex>,
}

/// How a catalog fared: `fresh` is what reading it gave, `cached` what an earlier reading left.
/// The first result is the catalog where it is at hand.
pub fn settle_sync(alias: &str, fresh: Result<CatalogIndex, String>, cached: Option<CatalogIndex>) -> (r: (
    Option<CatalogIndex>,
    CatalogStatus,
))
    ensures
        r.1.alias@ == alias@,
        match fresh {
            Ok(index) => {
                &&& r.0 == Some(index)
                &&& r.1.availability == CatalogAvailability::Available
                &&& r.1.warning is None
                &&& r.1.catalog is None
            },
            Err(why) => {
                &&& r.0 is None
                &&& r.1.availability == (if cached is Some {
                    CatalogAvailability::Stale
                } else {
                    CatalogAvailability::Unavailable
                })
                &&& r.1.warning == Some(why)
                &&& r.1.catalog == cached
            },
        },
{
    match fresh {
        Ok(index) => (
            Some(index),
            CatalogStatus {
                alias: alias.to_owned(),
                availability: CatalogAvailability::Available,
                warning: None,
                catalog: None,
            },
        ),
        Err(why) => {
            let availability = if cached.is_some() {
                CatalogAvailability::Stale
            } else {
                CatalogAvailability::Unavailable
            };
            (
                None,
                CatalogStatus {
                    alias: alias.to_owned(),
                    availability,
                    warning: Some(why),
                    catalog: cached,
                },
            )
        },
    }
}

/// The aliases whose catalog is not at hand.
pub open spec fn unavailable_set(statuses: Map<Text, CatalogStatus>) -> Set<Text> {
    Set::new(
        |a: Text|
            statuses.contains_key(a) && statuses[a].availability != CatalogAvailability::Available,
    )
}

pub fn unavailable_aliases(statuses: &NameMap<CatalogStatus>) -> (r: NameSet)
    ensures
        r@ == unavailable_set(statuses@),
{
    let mut out = NameSet::new();
    let n: usize = statuses.len();
    let ghost keys = statuses.names();
    let mut i: usize = 0;
    while i < n
        invariant
            i <= n == keys.len(),
            keys == statuses.names(),
            statuses.ordered(),
            forall|a: Text| #[trigger] out@.contains(a) ==> unavailable_set(statuses@).contains(a),
            forall|j: int|
                0 <= j < i && unavailable_set(statuses@).contains(keys[j]) ==> out@.contains(
                    #[trigger] keys[j],
                ),
        decreases n - i,
    {
        let alias = statuses.name_at(i);
        if statuses.value_at(i).availability != CatalogAvailability::Available {
            let _ = out.insert(alias.clone());
        }
        i = i + 1;
    }
    proof {
        assert forall|a: Text| unavailable_set(statuses@).contains(a) implies out@.contains(a) by {
            assert(keys.to_set().contains(a));
            let j = keys.index_of(a);
            assert(out@.contains(keys[j]));
        }
        assert(out@ =~= unavailable_set(statuses@));
    }
    out
}

/// The aliases whose catalog was last read before a failure.
pub open spec fn stale_set(statuses: Map<Text, CatalogStatus>) -> Set<Text> {
    Set::new(
        |a: Text|
            statuses.contains_key(a) && statuses[a].availability == CatalogAvailability::Stale,
    )
}

pub fn stale_aliases(statuses: &NameMap<CatalogStatus>) -> (r: NameSet)
    ensures
        r@ == stale_set(statuses@),
{
    let mut out = NameSet::new();
    let n: usize = statuses.len();
    let ghost keys = statuses.names();
    let mut i: usize = 0;
    while i < n
        invariant
            i <= n == keys.len(),
            keys == statuses.names(),
            statuses.ordered(),
            forall|a: Text| #[trigger] out@.contains(a) ==> stale_set(statuses@).contains(a),
            forall|j: int|
                0 <= j < i && stale_set(statuses@).contains(keys[j]) ==> out@.contains(
                    #[trigger] keys[j],
                ),
        decreases n - i,
    {
        let alias = statuses.name_at(i);
        if statuses.value_at(i).availability == CatalogAvailability::Stale {
            let _ = out.insert(alias.clone());
        }
        i = i + 1;
    }
    proof {
        assert forall|a: Text| stale_set(statuses@).contains(a) implies out@.contains(a) by {
            assert(keys.to_set().contains(a));
            let j = keys.index_of(a);
            assert(out@.contains(keys[j]));
        }
        assert(out@ =~= stale_set(statuses@));
    }
    out
}

/// How many of the first `n` keys belong to a catalog.
pub open spec fn count_of(keys: Seq<Text>, alias: Text, n: int) -> nat
    decreases n,
{
    if n <= 0 {
        0
    } else {
        count_of(keys, alias, n - 1) + if starts_with(keys[n - 1], alias + "/"@) {
            1nat
        } else {
            0nat
        }
    }
}

/// How many keys of a map belong to a catalog.
pub open spec fn owned_count(keys: Set<Text>, alias: Text) -> nat {
    count_of(walk(keys), alias, walk(keys).len() as int)
}

pub fn count_keys<V>(map: &NameMap<V>, alias: &str) -> (r: usize)
    ensures
        r == owned_count(map@.dom(), alias@),
{
    let prefix = cat2(alias, "/");
    let n: usize = map.len();
    let ghost keys = map.names();
    proof {
        lemma_walk(keys);
    }
    let mut count: usize = 0;
    let mut i: usize = 0;
    while i < n
        invariant
            i <= n == keys.len(),
            keys == map.names(),
            prefix@ == alias@ + "/"@,
            count <= i,
            count == count_of(keys, alias@, i as int),
        decreases n - i,
    {
        if begins(map.name_at(i).as_str(), prefix.as_str()) {
            count = count + 1;
        }
        i = i + 1;
    }
    count
}

/// What a report says of one catalog.
#[derive(Debug, PartialEq, Eq)]
pub struct CatalogReport {
    pub alias: String,
    pub availability: &'static str,
    pub stale: bool,
    pub declared_count: usize,
    pub installed_count: usize,
    pub warning: Option<String>,
}

/// A report in contracts.
pub struct CatalogReportView {
    pub alias: Text,
    pub availability: Text,
    pub stale: bool,
    pub declared_count: nat,
    pub installed_count: nat,
    pub warning: Option<Text>,
}

impl View for CatalogReport {
    type V = CatalogReportView;

    open spec fn view(&self) -> CatalogReportView {
        CatalogReportView {
            alias: self.alias@,
            availability: self.availability@,
            stale: self.stale,
            declared_count: self.declared_count as nat,
            installed_count: self.installed_count as nat,
            warning: opt_view(self.warning),
        }
    }
}

pub open spec fn report_views(v: Seq<CatalogReport>) -> Seq<CatalogReportView> {
    Seq::new(v.len(), |i: int| v[i]@)
}

pub open spec fn report_of(status: CatalogStatus, declared: nat, installed: nat) -> CatalogReportView {
    CatalogReportView {
        alias: status.alias@,
        availability: availability_text(status.availability),
        stale: status.availability == CatalogAvailability::Stale,
        declared_count: declared,
        installed_count: installed,
        warning: opt_view(status.warning),
    }
}

pub fn report_catalog(status: &CatalogStatus, declared: usize, installed: usize) -> (r: CatalogReport)
    ensures
        r@ == report_of(*status, declared as nat, installed as nat),
{
    CatalogReport {
        alias: status.alias.clone(),
        availability: status.availability.label(),
        stale: status.availability == CatalogAvailability::Stale,
        declared_count: declared,
        installed_count: installed,
        warning: copy_opt(&status.warning),
    }
}

} // verus!
