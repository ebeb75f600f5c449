//! Where suppressions come from: the entries each configuration file defines, how inherited
//! files are overlaid, and how many entries a prune removed.
use crate::config::{FingerprintSuppression, PathSuppression};
use crate::decimal::{decimal, decimal_text};
use crate::text::{concat, owned, portable, text_equal, to_portable};
use crate::text_set::{join_texts, joined, texts_of};
use vstd::prelude::*;

verus! {

/// How many suppressions a prune removed from each list.
#[derive(Clone, Copy, Debug, Default, PartialEq, Eq)]
pub struct SuppressionPruneResult {
    pub removed_paths: usize,
    pub removed_fingerprints: usize,
}

impl SuppressionPruneResult {
    /// The number of removed suppressions of both kinds.
    pub fn removed(self) -> (r: usize)
        requires
            self.removed_paths + self.removed_fingerprints <= usize::MAX,
        ensures
            r == self.removed_paths + self.removed_fingerprints,
    {
        self.removed_paths + self.removed_fingerprints
    }
}

/// One effective suppression and the file that defines it.
#[derive(Clone, Debug, PartialEq, Eq)]
pub struct SuppressionProvenance {
    pub kind: String,
    pub identity: String,
    pub reason: String,
    pub owner: Option<String>,
    pub ticket: Option<String>,
    pub expires_at: Option<String>,
    pub defined_in: String,
    pub yaml_path: String,
    pub inherited: bool,
}

/// A file path written with forward slashes.
pub fn portable_path(path: &str) -> (r: String)
    ensures
        r@ == portable(path@),
{
    to_portable(path)
}

/// The provenance of the path suppressions a file defines, in order.
pub open spec fn path_provenance_matches(
    r: Seq<SuppressionProvenance>,
    entries: Seq<PathSuppression>,
    defined_in: Seq<char>,
    inherited: bool,
) -> bool {
    &&& r.len() == entries.len()
    &&& forall|i: int|
        0 <= i < r.len() ==> {
            let p = #[trigger] r[i];
            let e = entries[i];
            &&& p.kind@ == "path"@
            &&& p.identity@ == e.pattern@
            &&& p.reason@ == e.reason@
            &&& p.owner == e.owner
            &&& p.ticket == e.ticket
            &&& p.expires_at == e.expires_at
            &&& p.defined_in@ == portable(defined_in)
            &&& p.yaml_path@ == "suppressions.paths["@ + decimal_text(i as nat) + "]"@
            &&& p.inherited == inherited
        }
}

/// The provenance of the fingerprint suppressions a file defines, in order.
pub open spec fn fingerprint_provenance_matches(
    r: Seq<SuppressionProvenance>,
    entries: Seq<FingerprintSuppression>,
    defined_in: Seq<char>,
    inherited: bool,
) -> bool {
    &&& r.len() == entries.len()
    &&& forall|i: int|
        0 <= i < r.len() ==> {
            let p = #[trigger] r[i];
            let e = entries[i];
            &&& p.kind@ == "fingerprint"@
            &&& p.identity@ == e.fingerprint@
            &&& p.reason@ == e.reason@
            &&& p.owner == e.owner
            &&& p.ticket == e.ticket
            &&& p.expires_at == e.expires_at
            &&& p.defined_in@ == portable(defined_in)
            &&& p.yaml_path@ == "suppressions.fingerprints["@ + decimal_text(i as nat) + "]"@
            &&& p.inherited == inherited
        }
}

fn indexed(prefix: &str, i: usize) -> (r: String)
    ensures
        r@ == prefix@ + decimal_text(i as nat) + "]"@,
{
    let n = decimal(i as u64);
    let head = concat(prefix, n.as_str());
    concat(head.as_str(), "]")
}

/// The provenance entries for the path suppressions that the file `defined_in` lists.
pub fn path_provenance(entries: Vec<PathSuppression>, defined_in: &str, inherited: bool) -> (r: Vec<
    SuppressionProvenance,
>)
    ensures
        path_provenance_matches(r@, entries@, defined_in@, inherited),
{
    let mut out: Vec<SuppressionProvenance> = Vec::new();
    let ghost all = entries@;
    let n = entries.len();
    let mut index: usize = 0;
    for entry in it: entries
        invariant
            it.seq() == all,
            all.len() == n,
            index == it.index(),
            path_provenance_matches(out@, all.take(index as int), defined_in@, inherited),
    {
        proof {
            assert(entry == all[index as int]);
        }
        out.push(
            SuppressionProvenance {
                kind: owned("path"),
                identity: entry.pattern,
                reason: entry.reason,
                owner: entry.owner,
                ticket: entry.ticket,
                expires_at: entry.expires_at,
                defined_in: portable_path(defined_in),
                yaml_path: indexed("suppressions.paths[", index),
                inherited,
            },
        );
        index = index + 1;
    }
    assert(all.take(index as int) =~= all);
    out
}

/// The provenance entries for the fingerprint suppressions that the file `defined_in` lists.
pub fn fingerprint_provenance(entries: Vec<FingerprintSuppression>, defined_in: &str, inherited: bool) -> (r: Vec<
    SuppressionProvenance,
>)
    ensures
        fingerprint_provenance_matches(r@, entries@, defined_in@, inherited),
{
    let mut out: Vec<SuppressionProvenance> = Vec::new();
    let ghost all = entries@;
    let n = entries.len();
    let mut index: usize = 0;
    for entry in it: entries
        invariant
            it.seq() == all,
            all.len() == n,
            index == it.index(),
            fingerprint_provenance_matches(out@, all.take(index as int), defined_in@, inherited),
    {
        proof {
            assert(entry == all[index as int]);
        }
        out.push(
            SuppressionProvenance {
                kind: owned("fingerprint"),
                identity: entry.fingerprint,
                reason: entry.reason,
                owner: entry.owner,
                ticket: entry.ticket,
                expires_at: entry.expires_at,
                defined_in: portable_path(defined_in),
                yaml_path: indexed("suppressions.fingerprints[", index),
                inherited,
            },
        );
        index = index + 1;
    }
    assert(all.take(index as int) =~= all);
    out
}

/// The effective suppressions of each kind, when some file along the `extends` chain sets them.
#[derive(Debug, Default)]
pub struct ProvenanceSet {
    pub paths: Option<Vec<SuppressionProvenance>>,
    pub fingerprints: Option<Vec<SuppressionProvenance>>,
}

impl ProvenanceSet {
    /// `overlay` on top of `self`: a list the overlay sets replaces the inherited one.
    pub fn overlaid(self, overlay: ProvenanceSet) -> (r: ProvenanceSet)
        ensures
            r.paths == if overlay.paths is Some {
                overlay.paths
            } else {
                self.paths
            },
            r.fingerprints == if overlay.fingerprints is Some {
                overlay.fingerprints
            } else {
                self.fingerprints
            },
    {
        let mut base = self;
        if overlay.paths.is_some() {
            base.paths = overlay.paths;
        }
        if overlay.fingerprints.is_some() {
            base.fingerprints = overlay.fingerprints;
        }
        base
    }

    /// The path entries followed by the fingerprint entries.
    pub fn into_entries(self) -> (r: Vec<SuppressionProvenance>)
        ensures
            r@ == match self.paths {
                Some(p) => p@,
                None => Seq::empty(),
            } + match self.fingerprints {
                Some(f) => f@,
                None => Seq::empty(),
            },
    {
        let mut out = match self.paths {
            Some(p) => p,
            None => Vec::new(),
        };
        let mut rest = match self.fingerprints {
            Some(f) => f,
            None => Vec::new(),
        };
        out.append(&mut rest);
        out
    }
}

/// `p` is the first position of `x` in `s`.
pub open spec fn first_at(s: Seq<Seq<char>>, x: Seq<char>, p: int) -> bool {
    &&& 0 <= p < s.len()
    &&& s[p] == x
    &&& forall|q: int| 0 <= q < p ==> s[q] != x
}

/// The message for a configuration that extends itself again: the files from the first
/// loading of `path` on, then `path`, joined by arrows.
pub open spec fn cycle_message(loading: Seq<Seq<char>>, path: Seq<char>, p: int) -> Seq<char> {
    "configuration extends cycle: "@ + joined(loading.skip(p).push(path), " -> "@)
}

/// While the files in `loading` (outermost first) are being read, whether reading `path` would
/// close an `extends` cycle, and if so the message that reports it.
pub fn extends_cycle(loading: &[String], path: &str) -> (r: Option<String>)
    ensures
        r is None <==> !texts_of(loading@).contains(path@),
        r matches Some(m) ==> exists|p: int| first_at(texts_of(loading@), path@, p) && m@ == cycle_message(
            texts_of(loading@),
            path@,
            p,
        ),
{
    let ghost names = texts_of(loading@);
    let mut p: usize = 0;
    while p < loading.len()
        invariant
            p <= loading@.len(),
            names == texts_of(loading@),
            forall|q: int| 0 <= q < p ==> names[q] != path@,
        ensures
            p <= loading@.len(),
            names == texts_of(loading@),
            forall|q: int| 0 <= q < p ==> names[q] != path@,
            p < loading@.len() ==> names[p as int] == path@,
        decreases loading@.len() - p,
    {
        if text_equal(loading[p].as_str(), path) {
            proof {
                assert(names[p as int] == loading@[p as int]@);
            }
            break;
        }
        p = p + 1;
    }
    if p == loading.len() {
        proof {
            if names.contains(path@) {
                let q = choose|q: int| 0 <= q < names.len() && names[q] == path@;
                assert(names[q] != path@);
            }
        }
        return None;
    }
    let mut cycle: Vec<String> = Vec::new();
    let mut k: usize = p;
    while k < loading.len()
        invariant
            p <= k <= loading@.len(),
            names == texts_of(loading@),
            texts_of(cycle@) == names.skip(p as int).take(k - p),
        decreases loading@.len() - k,
    {
        let ghost before = cycle@;
        cycle.push(owned(loading[k].as_str()));
        proof {
            assert(texts_of(cycle@) =~= texts_of(before).push(names[k as int]));
            assert(names.skip(p as int).take(k + 1 - p) =~= names.skip(p as int).take(k - p).push(names[k as int]));
        }
        k = k + 1;
    }
    let ghost before = cycle@;
    cycle.push(owned(path));
    let arrows = join_texts(cycle.as_slice(), " -> ");
    proof {
        assert(names.skip(p as int).take(k - p) =~= names.skip(p as int));
        assert(texts_of(cycle@) =~= names.skip(p as int).push(path@));
        assert(names[p as int] == path@);
        assert(first_at(names, path@, p as int));
    }
    Some(concat("configuration extends cycle: ", arrows.as_str()))
}

} // verus!
