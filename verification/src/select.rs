//! Which cores are measured, and in which memory domains: the `--cores` and
//! `--numa` selections.

use crate::ids;
use crate::numa::MemPlacement;
use crate::number;
use crate::text;
use std::collections::HashSet;
use vstd::prelude::*;

verus! {

/// A processor core.
#[derive(Clone, Copy, Debug, PartialEq, Eq, Structural)]
pub struct CoreId {
    pub id: usize,
}

/// What a list of specs selects.
#[derive(Clone, Copy, Debug, PartialEq, Eq, Structural)]
pub enum Selection {
    Cores,
    Domains,
}

/// The value or the message of a result, as sequences.
pub open spec fn outcome<T>(r: Result<Vec<T>, String>) -> Result<Seq<T>, Seq<char>> {
    match r {
        Ok(v) => Ok(v@),
        Err(e) => Err(e@),
    }
}

// ---------------------------------------------------------------------------
// Specs to ids
// ---------------------------------------------------------------------------

/// What is said of a text that is no id.
pub open spec fn no_id(kind: Selection) -> Seq<char> {
    match kind {
        Selection::Cores => "Invalid core id: '"@,
        Selection::Domains => "Invalid NUMA domain id: '"@,
    }
}

/// What is said of a range whose bound is no number.
pub open spec fn bad_bound(which: Seq<char>, spec: Seq<char>, bound: Seq<char>) -> Seq<char> {
    which + spec + "': '"@ + bound + "'"@
}

/// What is said of a range that runs backwards.
pub open spec fn reversed(spec: Seq<char>, start: usize, end: usize) -> Seq<char> {
    "Invalid range '"@ + spec + "': start ("@ + number::dec(start as nat) + ") > end ("@
        + number::dec(end as nat) + ")"@
}

/// The ids from `start` to `end`, or why there are none.
pub open spec fn range_ids(spec: Seq<char>, start: Seq<char>, end: Seq<char>) -> Result<
    Seq<usize>,
    Seq<char>,
> {
    match number::usize_of(start) {
        None => Err(bad_bound("Invalid range start in '"@, spec, start)),
        Some(a) => match number::usize_of(end) {
            None => Err(bad_bound("Invalid range end in '"@, spec, end)),
            Some(b) => if a > b {
                Err(reversed(spec, a, b))
            } else {
                Ok(ids::ids_between(a, b))
            },
        },
    }
}

/// The ids that one trimmed spec selects: an id, or a range cut at its first dash.
pub open spec fn spec_ids(kind: Selection, spec: Seq<char>) -> Result<Seq<usize>, Seq<char>> {
    let i = text::position(spec, '-');
    if kind == Selection::Domains && spec == "all"@ {
        Err("'all' cannot be combined with other --numa specs"@)
    } else if i < spec.len() {
        range_ids(spec, spec.take(i), spec.skip(i + 1))
    } else {
        match number::usize_of(spec) {
            Some(id) => Ok(seq![id]),
            None => Err(no_id(kind) + spec + "'"@),
        }
    }
}

/// The ids that the specs select, in order, or what is said of the first bad spec.
pub open spec fn selected(kind: Selection, specs: Seq<Seq<char>>) -> Result<Seq<usize>, Seq<char>>
    decreases specs.len(),
{
    if specs.len() == 0 {
        Ok(seq![])
    } else {
        match selected(kind, specs.drop_last()) {
            Err(e) => Err(e),
            Ok(before) => match spec_ids(kind, text::trimmed(specs.last())) {
                Err(e) => Err(e),
                Ok(more) => Ok(before + more),
            },
        }
    }
}

/// A bad spec stays the first bad one, whatever follows.
proof fn lemma_selected_err(kind: Selection, specs: Seq<Seq<char>>, n: int)
    requires
        0 <= n <= specs.len(),
        selected(kind, specs.take(n)) is Err,
    ensures
        selected(kind, specs) == selected(kind, specs.take(n)),
    decreases specs.len(),
{
    if n < specs.len() {
        assert(specs.drop_last().take(n) == specs.take(n));
        lemma_selected_err(kind, specs.drop_last(), n);
    } else {
        assert(specs.take(n) == specs);
    }
}

/// Appends the ids from `start` to `end`, or says why there are none.
fn push_range(v: &mut Vec<usize>, spec: &str, start: &str, end: &str) -> (r: Result<(), String>)
    ensures
        match range_ids(spec@, start@, end@) {
            Ok(more) => r is Ok && final(v)@ == old(v)@ + more,
            Err(e) => r matches Err(t) && t@ == e,
        },
{
    match number::parse_usize(start) {
        None => {
            let mut e: String = "Invalid range start in '".to_owned();
            e.append(spec);
            e.append("': '");
            e.append(start);
            e.append("'");
            Err(e)
        },
        Some(a) => match number::parse_usize(end) {
            None => {
                let mut e: String = "Invalid range end in '".to_owned();
                e.append(spec);
                e.append("': '");
                e.append(end);
                e.append("'");
                Err(e)
            },
            Some(b) => {
                if a > b {
                    let mut e: String = "Invalid range '".to_owned();
                    e.append(spec);
                    e.append("': start (");
                    number::push_usize(&mut e, a);
                    e.append(") > end (");
                    number::push_usize(&mut e, b);
                    e.append(")");
                    Err(e)
                } else {
                    ids::push_between(v, a, b);
                    Ok(())
                }
            },
        },
    }
}

/// Appends the ids that one trimmed spec selects, or says why there are none.
fn push_spec(v: &mut Vec<usize>, kind: Selection, spec: &str) -> (r: Result<(), String>)
    ensures
        match spec_ids(kind, spec@) {
            Ok(more) => r is Ok && final(v)@ == old(v)@ + more,
            Err(e) => r matches Err(t) && t@ == e,
        },
{
    if kind == Selection::Domains && text::same(spec, "all") {
        return Err("'all' cannot be combined with other --numa specs".to_owned());
    }
    match text::find(spec, '-') {
        Some(i) => {
            let n: usize = spec.unicode_len();
            let start: &str = spec.substring_char(0, i);
            let end: &str = spec.substring_char(i + 1, n);
            assert(start@ =~= spec@.take(i as int));
            assert(end@ =~= spec@.skip(i + 1));
            push_range(v, spec, start, end)
        },
        None => match number::parse_usize(spec) {
            Some(id) => {
                let ghost before = v@;
                v.push(id);
                assert(v@ =~= before + seq![id]);
                Ok(())
            },
            None => {
                let mut e: String = match kind {
                    Selection::Cores => "Invalid core id: '".to_owned(),
                    Selection::Domains => "Invalid NUMA domain id: '".to_owned(),
                };
                e.append(spec);
                e.append("'");
                Err(e)
            },
        },
    }
}

/// The ids that the specs select, in order, or what is said of the first bad spec.
fn collect_ids(kind: Selection, specs: &[String]) -> (r: Result<Vec<usize>, String>)
    ensures
        outcome(r) == selected(kind, text::string_views(specs@)),
{
    let ghost all = text::string_views(specs@);
    let mut v: Vec<usize> = Vec::new();
    let mut i: usize = 0;
    while i < specs.len()
        invariant
            i <= specs@.len(),
            all == text::string_views(specs@),
            selected(kind, all.take(i as int)) == Ok::<Seq<usize>, Seq<char>>(v@),
        decreases specs@.len() - i,
    {
        proof {
            assert(all.take(i + 1).drop_last() == all.take(i as int));
            assert(all.take(i + 1).last() == specs@[i as int]@);
        }
        let spec: &str = text::trim(specs[i].as_str());
        match push_spec(&mut v, kind, spec) {
            Ok(()) => {},
            Err(e) => {
                proof {
                    lemma_selected_err(kind, all, i + 1);
                }
                return Err(e);
            },
        }
        i = i + 1;
    }
    assert(all.take(i as int) == all);
    Ok(v)
}

// ---------------------------------------------------------------------------
// Checks on ids
// ---------------------------------------------------------------------------

/// The first id that stands in the list a second time.
pub open spec fn repeated(v: Seq<usize>) -> Option<usize>
    decreases v.len(),
{
    if v.len() == 0 {
        None
    } else {
        match repeated(v.drop_last()) {
            Some(id) => Some(id),
            None => if v.drop_last().contains(v.last()) {
                Some(v.last())
            } else {
                None
            },
        }
    }
}

/// The first id of the list that is not among `known`.
pub open spec fn absent(v: Seq<usize>, known: Set<usize>) -> Option<usize>
    decreases v.len(),
{
    if v.len() == 0 {
        None
    } else {
        match absent(v.drop_last(), known) {
            Some(id) => Some(id),
            None => if known.contains(v.last()) {
                None
            } else {
                Some(v.last())
            },
        }
    }
}

/// The ids below `n`.
pub open spec fn ids_below(n: usize) -> Set<usize> {
    Set::new(|id: usize| id < n)
}

proof fn lemma_repeated_some(v: Seq<usize>, n: int)
    requires
        0 <= n <= v.len(),
        repeated(v.take(n)) is Some,
    ensures
        repeated(v) == repeated(v.take(n)),
    decreases v.len(),
{
    if n < v.len() {
        assert(v.drop_last().take(n) == v.take(n));
        lemma_repeated_some(v.drop_last(), n);
    } else {
        assert(v.take(n) == v);
    }
}

proof fn lemma_absent_some(v: Seq<usize>, known: Set<usize>, n: int)
    requires
        0 <= n <= v.len(),
        absent(v.take(n), known) is Some,
    ensures
        absent(v, known) == absent(v.take(n), known),
    decreases v.len(),
{
    if n < v.len() {
        assert(v.drop_last().take(n) == v.take(n));
        lemma_absent_some(v.drop_last(), known, n);
    } else {
        assert(v.take(n) == v);
    }
}

/// No id stands in a list twice where none is repeated.
pub proof fn lemma_none_repeated(v: Seq<usize>)
    ensures
        repeated(v) is None <==> v.no_duplicates(),
        repeated(v) matches Some(id) ==> v.contains(id),
    decreases v.len(),
{
    if v.len() > 0 {
        let d = v.drop_last();
        lemma_none_repeated(d);
        if repeated(v) is None {
            assert forall|i: int, j: int| 0 <= i < v.len() && 0 <= j < v.len() && i != j implies v[i]
                != v[j] by {
                if i < d.len() && j < d.len() {
                    assert(d[i] != d[j]);
                } else if i < d.len() {
                    assert(d.contains(d[i]));
                } else {
                    assert(d.contains(d[j]));
                }
            }
        }
        if v.no_duplicates() {
            assert(d.no_duplicates());
            if d.contains(v.last()) {
                let k = choose|k: int| 0 <= k < d.len() && d[k] == v.last();
                assert(v[k] == v[v.len() - 1]);
            }
        }
        if repeated(d) is Some {
            let k = choose|k: int| 0 <= k < d.len() && d[k] == repeated(d)->0;
            assert(v[k] == repeated(d)->0);
        } else {
            assert(v[v.len() - 1] == v.last());
        }
    }
}

/// Every id of a list is known where none is absent.
pub proof fn lemma_none_absent(v: Seq<usize>, known: Set<usize>)
    ensures
        absent(v, known) is None <==> (forall|i: int|
            0 <= i < v.len() ==> known.contains(#[trigger] v[i])),
    decreases v.len(),
{
    if v.len() > 0 {
        let d = v.drop_last();
        lemma_none_absent(d, known);
        if absent(v, known) is None {
            assert forall|i: int| 0 <= i < v.len() implies known.contains(#[trigger] v[i]) by {
                if i < d.len() {
                    assert(known.contains(d[i]));
                }
            }
        }
        if forall|i: int| 0 <= i < v.len() ==> known.contains(#[trigger] v[i]) {
            assert forall|i: int| 0 <= i < d.len() implies known.contains(#[trigger] d[i]) by {
                assert(d[i] == v[i]);
            }
            assert(known.contains(v[v.len() - 1]));
        }
    }
}

/// The first id that stands in the list a second time.
fn find_repeated(v: &[usize]) -> (r: Option<usize>)
    ensures
        r == repeated(v@),
{
    broadcast use vstd::std_specs::hash::group_hash_axioms;

    let mut seen: HashSet<usize> = HashSet::new();
    let mut i: usize = 0;
    while i < v.len()
        invariant
            i <= v@.len(),
            forall|id: usize| #[trigger] seen@.contains(id) <==> v@.take(i as int).contains(id),
            repeated(v@.take(i as int)) is None,
        decreases v@.len() - i,
    {
        let id: usize = v[i];
        let ghost before = v@.take(i as int);
        let ghost after = v@.take(i + 1);
        let fresh: bool = seen.insert(id);
        proof {
            assert(after.drop_last() == before);
            assert(after == before.push(id));
        }
        if !fresh {
            proof {
                assert(before.contains(id));
                lemma_repeated_some(v@, i + 1);
            }
            return Some(id);
        }
        proof {
            assert forall|x: usize| #[trigger] seen@.contains(x) <==> after.contains(x) by {
                if before.contains(x) {
                    let k = choose|k: int| 0 <= k < before.len() && before[k] == x;
                    assert(after[k] == x);
                }
                assert(after[i as int] == id);
            }
        }
        i = i + 1;
    }
    assert(v@.take(i as int) == v@);
    None
}

// ---------------------------------------------------------------------------
// Memory domains
// ---------------------------------------------------------------------------

/// One placement on each of the nodes, in order.
pub open spec fn bound_to(v: Seq<usize>) -> Seq<MemPlacement> {
    v.map_values(|id: usize| MemPlacement::Bound(id))
}

/// The ids below `n`, in order.
pub open spec fn every_id(n: usize) -> Seq<usize> {
    Seq::new(n as nat, |i: int| i as usize)
}

/// What is said of a domain that the system does not have.
pub open spec fn no_domain(id: usize, num_nodes: usize) -> Seq<char> {
    "NUMA domain "@ + number::dec(id as nat) + " not found; system has "@ + number::dec(
        num_nodes as nat,
    ) + " node(s) (0.."@ + number::dec(
        (if num_nodes == 0 {
            0
        } else {
            num_nodes - 1
        }) as nat,
    ) + ")"@
}

/// The placements that ids select: one each, where no id comes twice and the
/// system has them all.
pub open spec fn domains_of(v: Seq<usize>, num_nodes: usize) -> Result<
    Seq<MemPlacement>,
    Seq<char>,
> {
    match repeated(v) {
        Some(id) => Err("Duplicate NUMA domain id: "@ + number::dec(id as nat)),
        None => match absent(v, ids_below(num_nodes)) {
            Some(id) => Err(no_domain(id, num_nodes)),
            None => Ok(bound_to(v)),
        },
    }
}

/// Whether the specs are the one word that selects every node.
pub open spec fn selects_all(specs: Seq<Seq<char>>) -> bool {
    specs.len() == 1 && text::trimmed(specs[0]) == "all"@
}

/// The placements that the specs select, or why they are refused.
pub open spec fn specs_choice(specs: Seq<Seq<char>>, num_nodes: usize) -> Result<
    Seq<MemPlacement>,
    Seq<char>,
> {
    if selects_all(specs) {
        Ok(bound_to(every_id(num_nodes)))
    } else {
        match selected(Selection::Domains, specs) {
            Err(e) => Err(e),
            Ok(v) => domains_of(v, num_nodes),
        }
    }
}

/// The placements of a `--numa` request: the kernel's own where there is none,
/// and a refusal of any other in a build that cannot place memory.
pub open spec fn numa_choice(feature: bool, specs: Seq<Seq<char>>, num_nodes: usize) -> Result<
    Seq<MemPlacement>,
    Seq<char>,
> {
    if specs.len() == 0 {
        Ok(seq![MemPlacement::Default])
    } else if !feature {
        Err(
            "--numa requires the `numa` build feature; rebuild with `cargo build --release --features numa` (Linux only)"@,
        )
    } else {
        specs_choice(specs, num_nodes)
    }
}

/// The first id of the list that is not below `n`.
fn find_too_high(v: &[usize], n: usize) -> (r: Option<usize>)
    ensures
        r == absent(v@, ids_below(n)),
{
    let mut i: usize = 0;
    while i < v.len()
        invariant
            i <= v@.len(),
            absent(v@.take(i as int), ids_below(n)) is None,
        decreases v@.len() - i,
    {
        assert(v@.take(i + 1).drop_last() == v@.take(i as int));
        if v[i] >= n {
            proof {
                lemma_absent_some(v@, ids_below(n), i + 1);
            }
            return Some(v[i]);
        }
        i = i + 1;
    }
    assert(v@.take(i as int) == v@);
    None
}

/// One placement on each of the nodes, in order.
fn bind_all(v: &[usize]) -> (r: Vec<MemPlacement>)
    ensures
        r@ == bound_to(v@),
{
    let mut out: Vec<MemPlacement> = Vec::new();
    let mut i: usize = 0;
    while i < v.len()
        invariant
            i <= v@.len(),
            out@ == bound_to(v@.take(i as int)),
        decreases v@.len() - i,
    {
        out.push(MemPlacement::Bound(v[i]));
        i = i + 1;
        assert(out@ =~= bound_to(v@.take(i as int)));
    }
    assert(v@.take(i as int) == v@);
    out
}

/// The placements that ids select, or why they are refused.
fn place(v: &[usize], num_nodes: usize) -> (r: Result<Vec<MemPlacement>, String>)
    ensures
        outcome(r) == domains_of(v@, num_nodes),
{
    match find_repeated(v) {
        Some(id) => {
            let mut e: String = "Duplicate NUMA domain id: ".to_owned();
            number::push_usize(&mut e, id);
            Err(e)
        },
        None => match find_too_high(v, num_nodes) {
            Some(id) => {
                let mut e: String = "NUMA domain ".to_owned();
                number::push_usize(&mut e, id);
                e.append(" not found; system has ");
                number::push_usize(&mut e, num_nodes);
                e.append(" node(s) (0..");
                number::push_usize(&mut e, num_nodes.saturating_sub(1));
                e.append(")");
                Err(e)
            },
            None => Ok(bind_all(v)),
        },
    }
}

/// Parses the specs of a `--numa` request: ids, `a-b` ranges, or the one word
/// `all`. Every id must be below `num_nodes`, and none may come twice.
pub fn parse_numa_specs(specs: &[String], num_nodes: usize) -> (r: Result<
    Vec<MemPlacement>,
    String,
>)
    ensures
        outcome(r) == specs_choice(text::string_views(specs@), num_nodes),
{
    let ghost all = text::string_views(specs@);
    if specs.len() == 1 {
        assert(all[0] == specs@[0]@);
        if text::same(text::trim(specs[0].as_str()), "all") {
            let mut v: Vec<usize> = Vec::new();
            if num_nodes > 0 {
                ids::push_between(&mut v, 0, num_nodes - 1);
            }
            assert(v@ =~= every_id(num_nodes));
            return Ok(bind_all(v.as_slice()));
        }
    }
    match collect_ids(Selection::Domains, specs) {
        Err(e) => Err(e),
        Ok(v) => place(v.as_slice(), num_nodes),
    }
}

/// Parses a `--numa` request into one placement per domain. `feature` says
/// whether the build can place memory.
pub fn parse_numa(feature: bool, specs: &[String], num_nodes: usize) -> (r: Result<
    Vec<MemPlacement>,
    String,
>)
    ensures
        outcome(r) == numa_choice(feature, text::string_views(specs@), num_nodes),
{
    if specs.len() == 0 {
        let mut v: Vec<MemPlacement> = Vec::new();
        v.push(MemPlacement::Default);
        assert(v@ =~= seq![MemPlacement::Default]);
        return Ok(v);
    }
    if !feature {
        return Err(
            "--numa requires the `numa` build feature; rebuild with `cargo build --release --features numa` (Linux only)".to_owned(),
        );
    }
    parse_numa_specs(specs, num_nodes)
}

/// The text of one placement.
pub open spec fn domain_text(p: MemPlacement) -> Seq<char> {
    match p {
        MemPlacement::Default => "default"@,
        MemPlacement::Bound(id) => number::dec(id as nat),
    }
}

/// The texts of the placements.
pub open spec fn domain_texts(p: Seq<MemPlacement>) -> Seq<Seq<char>> {
    p.map_values(|p: MemPlacement| domain_text(p))
}

/// Whether no placement is bound to a node.
pub open spec fn none_bound(p: Seq<MemPlacement>) -> bool {
    forall|i: int| 0 <= i < p.len() ==> #[trigger] p[i] == MemPlacement::Default
}

/// The placements as text: `default` where none is bound, else all of them with commas.
pub open spec fn domains_text(p: Seq<MemPlacement>) -> Seq<char> {
    if none_bound(p) {
        "default"@
    } else {
        text::joined(domain_texts(p), ","@)
    }
}

/// The placements as text.
pub fn fmt_domains(placements: &[MemPlacement]) -> (r: String)
    ensures
        r@ == domains_text(placements@),
{
    let mut parts: Vec<String> = Vec::new();
    let mut unbound: bool = true;
    let mut i: usize = 0;
    while i < placements.len()
        invariant
            i <= placements@.len(),
            unbound == none_bound(placements@.take(i as int)),
            text::string_views(parts@) == domain_texts(placements@.take(i as int)),
        decreases placements@.len() - i,
    {
        let ghost done = parts@;
        let ghost before = placements@.take(i as int);
        let ghost after = placements@.take(i + 1);
        let part: String = match placements[i] {
            MemPlacement::Default => "default".to_owned(),
            MemPlacement::Bound(n) => number::dec_text(n),
        };
        let bound: bool = match placements[i] {
            MemPlacement::Default => false,
            MemPlacement::Bound(_) => true,
        };
        proof {
            assert(after == before.push(placements@[i as int]));
            text::lemma_string_views_push(done, part);
            assert(domain_texts(after) =~= domain_texts(before).push(part@));
            if none_bound(after) {
                assert(after[i as int] == MemPlacement::Default);
                assert forall|k: int| 0 <= k < before.len() implies #[trigger] before[k]
                    == MemPlacement::Default by {
                    assert(after[k] == before[k]);
                }
            }
        }
        parts.push(part);
        if bound {
            unbound = false;
        }
        i = i + 1;
    }
    assert(placements@.take(i as int) == placements@);
    if unbound {
        return "default".to_owned();
    }
    text::join(&parts, ",")
}

// ---------------------------------------------------------------------------
// Cores
// ---------------------------------------------------------------------------

/// The ids of the cores.
pub open spec fn core_ids(cores: Seq<CoreId>) -> Seq<usize> {
    cores.map_values(|c: CoreId| c.id)
}

/// The cores with the given ids.
pub open spec fn cores_with(v: Seq<usize>) -> Seq<CoreId> {
    v.map_values(|id: usize| CoreId { id })
}

/// The decimal numerals of the ids.
pub open spec fn id_texts(v: Seq<usize>) -> Seq<Seq<char>> {
    v.map_values(|id: usize| number::dec(id as nat))
}

/// What is said of a core that the system does not have.
pub open spec fn no_core(id: usize, all: Seq<usize>) -> Seq<char> {
    "Core "@ + number::dec(id as nat) + " not found. Available: "@ + text::listing(
        id_texts(ids::sorted_set(all)),
    )
}

/// The cores that ids select: at least two, none twice, all of them available.
pub open spec fn cores_of(v: Seq<usize>, all: Seq<usize>) -> Result<Seq<CoreId>, Seq<char>> {
    match repeated(v) {
        Some(id) => Err("Duplicate core id: "@ + number::dec(id as nat)),
        None => match absent(v, all.to_set()) {
            Some(id) => Err(no_core(id, all)),
            None => if v.len() < 2 {
                Err("--cores must specify at least 2 cores, got "@ + number::dec(v.len()))
            } else {
                Ok(cores_with(v))
            },
        },
    }
}

/// The cores that the specs select among all cores, or why they are refused.
pub open spec fn cores_choice(specs: Seq<Seq<char>>, all: Seq<CoreId>) -> Result<
    Seq<CoreId>,
    Seq<char>,
> {
    if specs.len() == 0 {
        Ok(all)
    } else {
        match selected(Selection::Cores, specs) {
            Err(e) => Err(e),
            Ok(v) => cores_of(v, core_ids(all)),
        }
    }
}

/// The ids of the cores.
pub fn ids_of(cores: &[CoreId]) -> (r: Vec<usize>)
    ensures
        r@ == core_ids(cores@),
{
    let mut out: Vec<usize> = Vec::new();
    let mut i: usize = 0;
    while i < cores.len()
        invariant
            i <= cores@.len(),
            out@ == core_ids(cores@.take(i as int)),
        decreases cores@.len() - i,
    {
        out.push(cores[i].id);
        i = i + 1;
        assert(out@ =~= core_ids(cores@.take(i as int)));
    }
    assert(cores@.take(i as int) == cores@);
    out
}

/// The decimal numerals of the ids.
fn write_ids(v: &[usize]) -> (r: Vec<String>)
    ensures
        text::string_views(r@) == id_texts(v@),
{
    let mut out: Vec<String> = Vec::new();
    let mut i: usize = 0;
    assert(text::string_views(out@) =~= id_texts(v@.take(0)));
    while i < v.len()
        invariant
            i <= v@.len(),
            text::string_views(out@) == id_texts(v@.take(i as int)),
        decreases v@.len() - i,
    {
        let ghost done = out@;
        let part: String = number::dec_text(v[i]);
        out.push(part);
        proof {
            text::lemma_string_views_push(done, part);
            assert(id_texts(v@.take(i + 1)) =~= id_texts(v@.take(i as int)).push(part@));
        }
        i = i + 1;
    }
    assert(v@.take(i as int) == v@);
    out
}

/// The first id of the list that is not among `known`.
fn find_absent(v: &[usize], known: &[usize]) -> (r: Option<usize>)
    ensures
        r == absent(v@, known@.to_set()),
{
    broadcast use vstd::std_specs::hash::group_hash_axioms;

    let mut valid: HashSet<usize> = HashSet::new();
    let mut i: usize = 0;
    while i < known.len()
        invariant
            i <= known@.len(),
            valid@ == known@.take(i as int).to_set(),
        decreases known@.len() - i,
    {
        valid.insert(known[i]);
        proof {
            let before = known@.take(i as int);
            let after = known@.take(i + 1);
            assert(after == before.push(known@[i as int]));
            assert forall|x: usize| after.to_set().contains(x) <==> before.to_set().insert(
                known@[i as int],
            ).contains(x) by {
                if before.contains(x) {
                    let k = choose|k: int| 0 <= k < before.len() && before[k] == x;
                    assert(after[k] == x);
                }
                assert(after[i as int] == known@[i as int]);
            }
            assert(valid@ =~= after.to_set());
        }
        i = i + 1;
    }
    assert(known@.take(i as int) == known@);
    let mut k: usize = 0;
    while k < v.len()
        invariant
            k <= v@.len(),
            valid@ == known@.to_set(),
            absent(v@.take(k as int), known@.to_set()) is None,
        decreases v@.len() - k,
    {
        assert(v@.take(k + 1).drop_last() == v@.take(k as int));
        if !valid.contains(&v[k]) {
            proof {
                lemma_absent_some(v@, known@.to_set(), k + 1);
            }
            return Some(v[k]);
        }
        k = k + 1;
    }
    assert(v@.take(k as int) == v@);
    None
}

/// The cores with the given ids.
fn make_cores(v: &[usize]) -> (r: Vec<CoreId>)
    ensures
        r@ == cores_with(v@),
{
    let mut out: Vec<CoreId> = Vec::new();
    let mut i: usize = 0;
    while i < v.len()
        invariant
            i <= v@.len(),
            out@ == cores_with(v@.take(i as int)),
        decreases v@.len() - i,
    {
        out.push(CoreId { id: v[i] });
        i = i + 1;
        assert(out@ =~= cores_with(v@.take(i as int)));
    }
    assert(v@.take(i as int) == v@);
    out
}

/// The cores that ids select, or why they are refused.
fn take_cores(v: &[usize], all: &[usize]) -> (r: Result<Vec<CoreId>, String>)
    ensures
        outcome(r) == cores_of(v@, all@),
{
    match find_repeated(v) {
        Some(id) => {
            let mut e: String = "Duplicate core id: ".to_owned();
            number::push_usize(&mut e, id);
            Err(e)
        },
        None => match find_absent(v, all) {
            Some(id) => {
                let mut e: String = "Core ".to_owned();
                number::push_usize(&mut e, id);
                e.append(" not found. Available: ");
                let available: Vec<usize> = ids::sort_ids(all);
                let shown: String = text::list_text(&write_ids(available.as_slice()));
                e.append(shown.as_str());
                Err(e)
            },
            None => {
                if v.len() < 2 {
                    let mut e: String = "--cores must specify at least 2 cores, got ".to_owned();
                    number::push_usize(&mut e, v.len());
                    Err(e)
                } else {
                    Ok(make_cores(v))
                }
            },
        },
    }
}

/// The cores that the `--cores` specs select among all cores, or why they are
/// refused. All cores where there is no spec.
pub fn try_parse_cores(specs: &[String], all_cores: &[CoreId]) -> (r: Result<Vec<CoreId>, String>)
    ensures
        outcome(r) == cores_choice(text::string_views(specs@), all_cores@),
{
    if specs.len() == 0 {
        let mut out: Vec<CoreId> = Vec::new();
        let mut i: usize = 0;
        while i < all_cores.len()
            invariant
                i <= all_cores@.len(),
                out@ == all_cores@.take(i as int),
            decreases all_cores@.len() - i,
        {
            out.push(all_cores[i]);
            i = i + 1;
            assert(out@ =~= all_cores@.take(i as int));
        }
        assert(all_cores@.take(i as int) == all_cores@);
        return Ok(out);
    }
    match collect_ids(Selection::Cores, specs) {
        Err(e) => Err(e),
        Ok(v) => {
            let all: Vec<usize> = ids_of(all_cores);
            take_cores(v.as_slice(), all.as_slice())
        },
    }
}

/// The cores that valid `--cores` specs select among all cores.
pub fn parse_cores(specs: &[String], all_cores: &[CoreId]) -> (r: Vec<CoreId>)
    requires
        cores_choice(text::string_views(specs@), all_cores@) is Ok,
    ensures
        cores_choice(text::string_views(specs@), all_cores@) == Ok::<Seq<CoreId>, Seq<char>>(r@),
{
    match try_parse_cores(specs, all_cores) {
        Ok(v) => v,
        Err(_) => Vec::new(),
    }
}

// ---------------------------------------------------------------------------
// Laws
// ---------------------------------------------------------------------------

/// Where specs are accepted, each placement is bound to a node that the system
/// has, and no two are bound to the same.
pub proof fn law_domains_valid(specs: Seq<Seq<char>>, num_nodes: usize)
    requires
        specs_choice(specs, num_nodes) is Ok,
    ensures
        ({
            let p = specs_choice(specs, num_nodes)->Ok_0;
            &&& forall|i: int|
                0 <= i < p.len() ==> (#[trigger] p[i] matches MemPlacement::Bound(id) && id
                    < num_nodes)
            &&& p.no_duplicates()
        }),
{
    let p = specs_choice(specs, num_nodes)->Ok_0;
    if selects_all(specs) {
        assert(p =~= bound_to(every_id(num_nodes)));
    } else {
        let v = selected(Selection::Domains, specs)->Ok_0;
        lemma_none_repeated(v);
        lemma_none_absent(v, ids_below(num_nodes));
        assert forall|i: int| 0 <= i < p.len() implies (#[trigger] p[i] matches MemPlacement::Bound(
            id,
        ) && id < num_nodes) by {
            assert(ids_below(num_nodes).contains(v[i]));
        }
        assert forall|i: int, j: int| 0 <= i < p.len() && 0 <= j < p.len() && i != j implies p[i]
            != p[j] by {
            assert(v[i] != v[j]);
        }
    }
}

/// The numeral of a node that the system has selects that node alone.
pub proof fn law_node_selectable(id: usize, num_nodes: usize)
    requires
        id < num_nodes,
    ensures
        specs_choice(seq![number::dec(id as nat)], num_nodes) == Ok::<Seq<MemPlacement>, Seq<char>>(
            seq![MemPlacement::Bound(id)],
        ),
{
    let d = number::dec(id as nat);
    let specs = seq![d];
    number::law_dec_reads_back(id as nat);
    number::lemma_dec_digits(id as nat);
    reveal_strlit("all");
    assert(number::is_digit(d[0]));
    assert(number::is_digit(d[d.len() - 1]));
    text::lemma_trimmed_same(d);
    assert(d != "all"@) by {
        assert("all"@[0] == 'a');
    }
    assert forall|j: int| 0 <= j < d.len() implies d[j] != '-' by {
        assert(number::is_digit(d[j]));
    }
    text::lemma_position_is(d, '-', d.len() as int);
    assert(specs.drop_last() =~= Seq::<Seq<char>>::empty());
    assert(selected(Selection::Domains, specs.drop_last()) == Ok::<Seq<usize>, Seq<char>>(
        Seq::<usize>::empty(),
    ));
    let v = seq![id];
    assert(Seq::<usize>::empty() + v =~= v);
    assert(selected(Selection::Domains, specs) == Ok::<Seq<usize>, Seq<char>>(v));
    lemma_none_repeated(v);
    lemma_none_absent(v, ids_below(num_nodes));
    assert(bound_to(v) =~= seq![MemPlacement::Bound(id)]);
}

/// A build that cannot place memory refuses every explicit request.
pub proof fn law_no_feature_no_domains(specs: Seq<Seq<char>>, num_nodes: usize)
    ensures
        numa_choice(false, specs, num_nodes) is Ok <==> specs.len() == 0,
{
}

/// Where specs select cores, there are at least two of them, none twice, and
/// all of them are among the available ones.
pub proof fn law_cores_valid(specs: Seq<Seq<char>>, all: Seq<CoreId>)
    requires
        specs.len() > 0,
        cores_choice(specs, all) is Ok,
    ensures
        ({
            let c = cores_choice(specs, all)->Ok_0;
            &&& c.len() >= 2
            &&& c.no_duplicates()
            &&& forall|i: int| 0 <= i < c.len() ==> all.contains(#[trigger] c[i])
        }),
{
    let c = cores_choice(specs, all)->Ok_0;
    let v = selected(Selection::Cores, specs)->Ok_0;
    let known = core_ids(all);
    lemma_none_repeated(v);
    lemma_none_absent(v, known.to_set());
    assert forall|i: int| 0 <= i < c.len() implies all.contains(#[trigger] c[i]) by {
        assert(known.to_set().contains(v[i]));
        let k = choose|k: int| 0 <= k < known.len() && known[k] == v[i];
        assert(all[k] == c[i]);
    }
    assert forall|i: int, j: int| 0 <= i < c.len() && 0 <= j < c.len() && i != j implies c[i]
        != c[j] by {
        assert(v[i] != v[j]);
    }
}

/// The word `all` selects what the range of all nodes selects, where there is
/// a node.
pub proof fn law_all_is_the_range(num_nodes: usize)
    requires
        num_nodes >= 1,
    ensures
        specs_choice(seq!["all"@], num_nodes) == specs_choice(
            seq![number::dec(0) + "-"@ + number::dec((num_nodes - 1) as nat)],
            num_nodes,
        ),
        specs_choice(seq!["all"@], num_nodes) == Ok::<Seq<MemPlacement>, Seq<char>>(
            bound_to(every_id(num_nodes)),
        ),
{
    let a = number::dec(0);
    let b = number::dec((num_nodes - 1) as nat);
    let spec = a + "-"@ + b;
    let specs = seq![spec];
    reveal_strlit("all");
    reveal_strlit("-");
    number::law_dec_reads_back(0);
    number::law_dec_reads_back((num_nodes - 1) as nat);
    number::lemma_dec_digits(0);
    number::lemma_dec_digits((num_nodes - 1) as nat);
    assert(number::is_digit(a[0]) && spec[0] == a[0]);
    assert(number::is_digit(b[b.len() - 1]) && spec.last() == b[b.len() - 1]);
    text::lemma_trimmed_same("all"@);
    text::lemma_trimmed_same(spec);
    assert("all"@[0] == 'a');
    assert(spec != "all"@);
    assert forall|j: int| 0 <= j < a.len() implies spec[j] != '-' by {
        assert(number::is_digit(a[j]));
    }
    assert(spec[a.len() as int] == '-');
    text::lemma_position_is(spec, '-', a.len() as int);
    assert(spec.take(a.len() as int) =~= a);
    assert(spec.skip(a.len() as int + 1) =~= b);
    let v = every_id(num_nodes);
    assert(ids::ids_between(0, (num_nodes - 1) as usize) =~= v);
    assert(specs.drop_last() =~= Seq::<Seq<char>>::empty());
    assert(selected(Selection::Domains, specs.drop_last()) == Ok::<Seq<usize>, Seq<char>>(
        Seq::<usize>::empty(),
    ));
    assert(Seq::<usize>::empty() + v =~= v);
    assert(selected(Selection::Domains, specs) == Ok::<Seq<usize>, Seq<char>>(v));
    lemma_none_repeated(v);
    lemma_none_absent(v, ids_below(num_nodes));
    assert(v.no_duplicates());
    assert forall|i: int| 0 <= i < v.len() implies ids_below(num_nodes).contains(v[i]) by {}
    assert(domains_of(v, num_nodes) == Ok::<Seq<MemPlacement>, Seq<char>>(bound_to(v)));
}

/// Whether the ids are those from `a` up to `b`, in order.
pub open spec fn counts_up(v: Seq<usize>, a: usize, b: usize) -> bool {
    &&& v.len() == b - a + 1
    &&& forall|i: int| 0 <= i < v.len() ==> #[trigger] v[i] == a + i
}

/// A range selects every id from its first to its last, both included, for
/// cores and for domains alike.
pub proof fn law_range_selects(kind: Selection, a: usize, b: usize)
    requires
        a <= b,
    ensures
        selected(kind, seq![number::dec(a as nat) + "-"@ + number::dec(b as nat)]) matches Ok(v)
            && counts_up(v, a, b),
{
    let x = number::dec(a as nat);
    let y = number::dec(b as nat);
    let spec = x + "-"@ + y;
    reveal_strlit("-");
    number::law_dec_reads_back(a as nat);
    number::law_dec_reads_back(b as nat);
    lemma_numeral_edges(a as nat);
    lemma_numeral_edges(b as nat);
    assert(spec[0] == x[0]);
    assert(spec.last() == y.last());
    text::lemma_trimmed_same(spec);
    assert("-"@ =~= seq!['-']);
    law_dashed_spec(kind, x, y);
    lemma_one_spec(kind, spec);
}

/// An id selects itself, for cores and for domains alike.
pub proof fn law_id_selects(kind: Selection, id: usize)
    ensures
        selected(kind, seq![number::dec(id as nat)]) == Ok::<Seq<usize>, Seq<char>>(seq![id]),
{
    let d = number::dec(id as nat);
    number::law_dec_reads_back(id as nat);
    lemma_numeral_edges(id as nat);
    text::lemma_trimmed_same(d);
    law_plain_spec(kind, d);
    lemma_one_spec(kind, d);
}

/// The numeral of a number begins and ends with a digit and holds no dash.
proof fn lemma_numeral_edges(n: nat)
    ensures
        number::dec(n).len() > 0,
        !text::is_white(number::dec(n)[0]),
        !text::is_white(number::dec(n).last()),
        !number::dec(n).contains('-'),
        number::dec(n) != "all"@,
{
    let d = number::dec(n);
    reveal_strlit("all");
    number::lemma_dec_digits(n);
    assert(number::is_digit(d[0]));
    assert(number::is_digit(d[d.len() - 1]));
    assert("all"@[0] == 'a');
    if d.contains('-') {
        let k = choose|k: int| 0 <= k < d.len() && d[k] == '-';
        assert(number::is_digit(d[k]));
    }
}

proof fn lemma_one_spec(kind: Selection, spec: Seq<char>)
    ensures
        selected(kind, seq![spec]) == spec_ids(kind, text::trimmed(spec)),
{
    let specs = seq![spec];
    assert(specs.drop_last() =~= Seq::<Seq<char>>::empty());
    assert(selected(kind, specs.drop_last()) == Ok::<Seq<usize>, Seq<char>>(
        Seq::<usize>::empty(),
    ));
    if let Ok(v) = spec_ids(kind, text::trimmed(spec)) {
        assert(Seq::<usize>::empty() + v =~= v);
    }
}

/// What a spec with a dash selects: the text before the first dash and all the
/// text behind it must both be numbers, and the first not above the second.
pub proof fn law_dashed_spec(kind: Selection, x: Seq<char>, y: Seq<char>)
    requires
        !x.contains('-'),
    ensures
        ({
            let s = x + seq!['-'] + y;
            let r = spec_ids(kind, s);
            match (number::usize_of(x), number::usize_of(y)) {
                (None, _) => r == Err::<Seq<usize>, Seq<char>>(
                    "Invalid range start in '"@ + s + "': '"@ + x + "'"@,
                ),
                (Some(_), None) => r == Err::<Seq<usize>, Seq<char>>(
                    "Invalid range end in '"@ + s + "': '"@ + y + "'"@,
                ),
                (Some(a), Some(b)) => if a > b {
                    r == Err::<Seq<usize>, Seq<char>>(
                        "Invalid range '"@ + s + "': start ("@ + number::dec(a as nat)
                            + ") > end ("@ + number::dec(b as nat) + ")"@,
                    )
                } else {
                    r matches Ok(v) && counts_up(v, a, b)
                },
            }
        }),
{
    let s = x + seq!['-'] + y;
    reveal_strlit("all");
    assert forall|j: int| 0 <= j < x.len() implies s[j] != '-' by {
        assert(x.contains(x[j]));
    }
    assert(s[x.len() as int] == '-');
    text::lemma_position_is(s, '-', x.len() as int);
    assert(s.take(x.len() as int) =~= x);
    assert(s.skip(x.len() as int + 1) =~= y);
    assert(s != "all"@) by {
        if s == "all"@ {
            assert(s[x.len() as int] == "all"@[x.len() as int]);
        }
    }
}

/// What a spec without a dash selects: the one id that it is, where it is a
/// number; the word `all` is no id of a domain.
pub proof fn law_plain_spec(kind: Selection, s: Seq<char>)
    requires
        !s.contains('-'),
        s != "all"@,
    ensures
        match number::usize_of(s) {
            Some(id) => spec_ids(kind, s) == Ok::<Seq<usize>, Seq<char>>(seq![id]),
            None => spec_ids(kind, s) == Err::<Seq<usize>, Seq<char>>(
                (if kind == Selection::Cores {
                    "Invalid core id: '"@
                } else {
                    "Invalid NUMA domain id: '"@
                }) + s + "'"@,
            ),
        },
{
    assert forall|j: int| 0 <= j < s.len() implies s[j] != '-' by {
        assert(s.contains(s[j]));
    }
    text::lemma_position_is(s, '-', s.len() as int);
}

/// White space around a spec changes nothing.
pub proof fn law_spec_trimmed(kind: Selection, a: Seq<char>, spec: Seq<char>, b: Seq<char>)
    requires
        text::all_white(a),
        text::all_white(b),
        spec.len() > 0 ==> !text::is_white(spec[0]) && !text::is_white(spec.last()),
    ensures
        selected(kind, seq![a + spec + b]) == selected(kind, seq![spec]),
{
    text::law_trimmed(a, spec, b);
    text::lemma_trimmed_same(spec);
    lemma_one_spec(kind, a + spec + b);
    lemma_one_spec(kind, spec);
}

/// A list of specs selects what its first specs select and then what the rest
/// select; a spec that selects nothing refuses all, and the first such spec
/// says why.
pub proof fn law_specs_in_turn(kind: Selection, a: Seq<Seq<char>>, b: Seq<Seq<char>>)
    ensures
        match (selected(kind, a), selected(kind, b)) {
            (Ok(x), Ok(y)) => selected(kind, a + b) == Ok::<Seq<usize>, Seq<char>>(x + y),
            (Err(e), _) => selected(kind, a + b) == Err::<Seq<usize>, Seq<char>>(e),
            (Ok(_), Err(e)) => selected(kind, a + b) == Err::<Seq<usize>, Seq<char>>(e),
        },
    decreases b.len(),
{
    if b.len() == 0 {
        assert(a + b =~= a);
        if let Ok(x) = selected(kind, a) {
            assert(x + Seq::<usize>::empty() =~= x);
        }
    } else {
        let d = b.drop_last();
        law_specs_in_turn(kind, a, d);
        assert((a + b).drop_last() =~= a + d);
        assert((a + b).last() == b.last());
        if let (Ok(x), Ok(y)) = (selected(kind, a), selected(kind, d)) {
            if let Ok(z) = spec_ids(kind, text::trimmed(b.last())) {
                assert(x + y + z =~= x + (y + z));
            }
        }
    }
}

/// The id that is said to be repeated is the first to stand in the list a
/// second time: at `j`, with no id twice before it.
pub proof fn law_first_repeated(v: Seq<usize>) -> (j: int)
    ensures
        repeated(v) is Some <==> !v.no_duplicates(),
        repeated(v) matches Some(id) ==> {
            &&& 0 <= j < v.len()
            &&& v[j] == id
            &&& v.take(j).contains(id)
            &&& v.take(j).no_duplicates()
        },
    decreases v.len(),
{
    lemma_none_repeated(v);
    if v.len() == 0 {
        0
    } else {
        let d = v.drop_last();
        let k = law_first_repeated(d);
        lemma_none_repeated(d);
        if repeated(d) is Some {
            assert(v.take(k) =~= d.take(k));
            k
        } else {
            let n = v.len() - 1;
            assert(v.take(n) =~= d);
            n
        }
    }
}

/// The id that is said to be missing is the first of the list that is not known.
pub proof fn law_first_absent(v: Seq<usize>, known: Set<usize>) -> (j: int)
    ensures
        absent(v, known) is Some <==> exists|i: int|
            0 <= i < v.len() && !known.contains(#[trigger] v[i]),
        absent(v, known) matches Some(id) ==> {
            &&& 0 <= j < v.len()
            &&& v[j] == id
            &&& !known.contains(id)
            &&& forall|i: int| 0 <= i < j ==> known.contains(#[trigger] v[i])
        },
    decreases v.len(),
{
    lemma_none_absent(v, known);
    if v.len() == 0 {
        0
    } else {
        let d = v.drop_last();
        let k = law_first_absent(d, known);
        lemma_none_absent(d, known);
        if absent(d, known) is Some {
            assert(d[k] == v[k]);
            assert forall|i: int| 0 <= i < k implies known.contains(#[trigger] v[i]) by {
                assert(d[i] == v[i]);
            }
            k
        } else {
            assert forall|i: int| 0 <= i < v.len() - 1 implies known.contains(#[trigger] v[i]) by {
                assert(known.contains(d[i]));
            }
            v.len() - 1
        }
    }
}

/// What ids of domains give: one placement on each node, in the order asked
/// for, where no id comes twice and all lie below the number of nodes; else an
/// id that comes twice is named before one that is too high.
pub proof fn law_domains_of(v: Seq<usize>, num_nodes: usize)
    ensures
        ({
            let r = domains_of(v, num_nodes);
            let fine = forall|i: int| 0 <= i < v.len() ==> #[trigger] v[i] < num_nodes;
            let last = if num_nodes == 0 {
                0
            } else {
                num_nodes - 1
            };
            &&& r is Ok <==> v.no_duplicates() && fine
            &&& r matches Ok(p) ==> p.len() == v.len() && forall|i: int|
                0 <= i < v.len() ==> #[trigger] p[i] == MemPlacement::Bound(v[i])
            &&& !v.no_duplicates() ==> r == Err::<Seq<MemPlacement>, Seq<char>>(
                "Duplicate NUMA domain id: "@ + number::dec(repeated(v)->0 as nat),
            )
            &&& v.no_duplicates() && !fine ==> r == Err::<Seq<MemPlacement>, Seq<char>>(
                "NUMA domain "@ + number::dec(absent(v, ids_below(num_nodes))->0 as nat)
                    + " not found; system has "@ + number::dec(num_nodes as nat) + " node(s) (0.."@
                    + number::dec(last as nat) + ")"@,
            )
        }),
{
    lemma_none_repeated(v);
    lemma_none_absent(v, ids_below(num_nodes));
    assert forall|i: int| 0 <= i < v.len() implies (ids_below(num_nodes).contains(
        #[trigger] v[i],
    ) <==> v[i] < num_nodes) by {
    }
}

/// What ids of cores give: the cores in the order asked for, where no id comes
/// twice, all are there, and there are two at least; else an id that comes
/// twice is named before one that is not there, and that before their number.
pub proof fn law_cores_of(v: Seq<usize>, all: Seq<usize>)
    ensures
        ({
            let r = cores_of(v, all);
            let there = forall|i: int| 0 <= i < v.len() ==> all.contains(#[trigger] v[i]);
            &&& r is Ok <==> v.no_duplicates() && there && v.len() >= 2
            &&& r matches Ok(c) ==> c.len() == v.len() && forall|i: int|
                0 <= i < v.len() ==> (#[trigger] c[i]).id == v[i]
            &&& !v.no_duplicates() ==> r == Err::<Seq<CoreId>, Seq<char>>(
                "Duplicate core id: "@ + number::dec(repeated(v)->0 as nat),
            )
            &&& v.no_duplicates() && !there ==> r == Err::<Seq<CoreId>, Seq<char>>(
                "Core "@ + number::dec(absent(v, all.to_set())->0 as nat)
                    + " not found. Available: "@ + text::listing(id_texts(ids::sorted_set(all))),
            )
            &&& v.no_duplicates() && there && v.len() < 2 ==> r == Err::<Seq<CoreId>, Seq<char>>(
                "--cores must specify at least 2 cores, got "@ + number::dec(v.len()),
            )
        }),
{
    lemma_none_repeated(v);
    lemma_none_absent(v, all.to_set());
    assert forall|i: int| 0 <= i < v.len() implies (all.to_set().contains(#[trigger] v[i])
        <==> all.contains(v[i])) by {
    }
}

/// Without specs all cores are taken, and the kernel's own placement; with
/// specs what their ids give.
pub proof fn law_choices(specs: Seq<Seq<char>>, all: Seq<CoreId>, num_nodes: usize)
    ensures
        cores_choice(Seq::<Seq<char>>::empty(), all) == Ok::<Seq<CoreId>, Seq<char>>(all),
        numa_choice(true, Seq::<Seq<char>>::empty(), num_nodes) == Ok::<
            Seq<MemPlacement>,
            Seq<char>,
        >(seq![MemPlacement::Default]),
        specs.len() > 0 ==> (selected(Selection::Cores, specs) matches Ok(v) ==> cores_choice(
            specs,
            all,
        ) == cores_of(v, core_ids(all))),
        specs.len() > 0 ==> (selected(Selection::Cores, specs) matches Err(e) ==> cores_choice(
            specs,
            all,
        ) == Err::<Seq<CoreId>, Seq<char>>(e)),
        specs.len() > 1 ==> (selected(Selection::Domains, specs) matches Ok(v) ==> numa_choice(
            true,
            specs,
            num_nodes,
        ) == domains_of(v, num_nodes)),
        specs.len() > 1 ==> (selected(Selection::Domains, specs) matches Err(e) ==> numa_choice(
            true,
            specs,
            num_nodes,
        ) == Err::<Seq<MemPlacement>, Seq<char>>(e)),
        forall|i: int| 0 <= i < all.len() ==> #[trigger] core_ids(all)[i] == all[i].id,
{
}

/// The placements as text: the word `default` where no node is asked for, else
/// the nodes with commas, in order; so the list reads back.
pub proof fn law_domains_shown(v: Seq<usize>)
    ensures
        domains_text(seq![MemPlacement::Default]) == "default"@,
        v.len() > 0 ==> text::pieces(domains_text(bound_to(v)), ',') == v.map_values(
            |id: usize| number::dec(id as nat),
        ),
{
    reveal_strlit(",");
    assert(","@ =~= seq![',']);
    assert(none_bound(seq![MemPlacement::Default]));
    if v.len() > 0 {
        let parts = v.map_values(|id: usize| number::dec(id as nat));
        assert(bound_to(v)[0] is Bound);
        assert(domain_texts(bound_to(v)) =~= parts);
        assert forall|i: int| 0 <= i < parts.len() implies !(#[trigger] parts[i]).contains(',') by {
            number::lemma_dec_digits(v[i] as nat);
            if parts[i].contains(',') {
                let k = choose|k: int| 0 <= k < parts[i].len() && parts[i][k] == ',';
                assert(number::is_digit(number::dec(v[i] as nat)[k]));
            }
        }
        text::law_split_undoes_join(parts, ',');
    }
}

/// The word `all`, alone and whatever white space is around it, selects every
/// node in order. Among other specs it is refused, and it is no core. One spec
/// that is another word selects what its ids give.
pub proof fn law_all(spec: Seq<char>, num_nodes: usize)
    ensures
        text::trimmed(spec) == "all"@ ==> (numa_choice(true, seq![spec], num_nodes) matches Ok(p)
            && p.len() == num_nodes && forall|i: int|
            0 <= i < num_nodes ==> #[trigger] p[i] == MemPlacement::Bound(i as usize)),
        spec_ids(Selection::Domains, "all"@) == Err::<Seq<usize>, Seq<char>>(
            "'all' cannot be combined with other --numa specs"@,
        ),
        spec_ids(Selection::Cores, "all"@) == Err::<Seq<usize>, Seq<char>>(
            "Invalid core id: '"@ + "all"@ + "'"@,
        ),
        text::trimmed(spec) != "all"@ ==> numa_choice(true, seq![spec], num_nodes) == match selected(
            Selection::Domains,
            seq![spec],
        ) {
            Ok(v) => domains_of(v, num_nodes),
            Err(e) => Err(e),
        },
{
    reveal_strlit("all");
    let word = "all"@;
    assert(!word.contains('-')) by {
        assert(word[0] == 'a' && word[1] == 'l' && word[2] == 'l');
    }
    assert(number::usize_of(word) is None) by {
        assert(!number::is_digit(word[0]));
        number::law_numerals(word, 0, 0);
    }
    assert forall|j: int| 0 <= j < word.len() implies word[j] != '-' by {
        assert(word.contains(word[j]));
    }
    text::lemma_position_is(word, '-', word.len() as int);
    assert(seq![spec][0] == spec);
}

/// A range behind other specs adds, behind the ids that they select, every id
/// from its first to its last.
pub proof fn law_one_range_more(kind: Selection, specs: Seq<Seq<char>>, a: usize, b: usize)
    requires
        selected(kind, specs) is Ok,
        a <= b,
    ensures
        selected(kind, specs.push(number::dec(a as nat) + "-"@ + number::dec(b as nat))) matches Ok(
            v,
        ) && v.len() == selected(kind, specs)->Ok_0.len() + (b - a + 1) && selected(
            kind,
            specs,
        )->Ok_0.is_prefix_of(v) && counts_up(
            v.skip(selected(kind, specs)->Ok_0.len() as int),
            a,
            b,
        ),
{
    let spec = number::dec(a as nat) + "-"@ + number::dec(b as nat);
    law_range_selects(kind, a, b);
    law_specs_in_turn(kind, specs, seq![spec]);
    assert(specs + seq![spec] =~= specs.push(spec));
    let x = selected(kind, specs)->Ok_0;
    let y = selected(kind, seq![spec])->Ok_0;
    assert((x + y).skip(x.len() as int) =~= y);
    assert((x + y).subrange(0, x.len() as int) =~= x);
}

} // verus!
