//! The semantic analyzers: each validates one concern over the full packet
//! list, and a composite runs them in order, stopping at the first that
//! reports errors, since later analyzers may assume earlier invariants.

use vstd::prelude::*;
use vstd::string::StringExecFns;

use crate::error::DependencyResolvingError;
use crate::error::DependencyResolvingErrorView;
use crate::error::MorphError;
use crate::error::MorphErrorView;
use crate::error::MorphResult;
use crate::error::MorphResultView;
use crate::error::SemanticError;
use crate::error::SemanticErrorView;
use crate::graph::model_edge;
use crate::graph::model_find_cycle;
use crate::graph::model_node;
use crate::graph::spec_cycle_render;
use crate::graph::vec_contains_str;
use crate::graph::lemma_find_cycle_bridge;
use crate::graph::lemma_model_relates;
use crate::graph::Dependent;
use crate::graph::DependencyGraph;
use crate::graph::DependentGraphBuilder;
use crate::graph::GraphModel;
use crate::parser::spec_unit_result;
use crate::parser::Packet;
use crate::parser::PacketView;
use crate::parser::FieldView;
use crate::text::i32_to_string;
use crate::text::spec_int_digits;
use crate::token::FieldType;
use crate::token::FieldTypeView;

verus! {

/// A semantic error as a front-end error value.
pub open spec fn spec_semantic_error(message: Seq<char>) -> MorphErrorView {
    MorphErrorView::Semantic(SemanticErrorView { message })
}

/// A dependency resolving error as a front-end error value.
pub open spec fn spec_dependency_error(message: Seq<char>) -> MorphErrorView {
    MorphErrorView::DependencyResolving(DependencyResolvingErrorView { message })
}

/// Success when no error accumulated, else every error.
pub open spec fn spec_errors_result(es: Seq<MorphErrorView>) -> MorphResultView<()> {
    if es.len() == 0 {
        MorphResultView::Success(())
    } else {
        MorphResultView::Errors(es)
    }
}

/// The packet names, in declaration order.
pub open spec fn spec_packet_names(ps: Seq<PacketView>) -> Seq<Seq<char>> {
    Seq::new(ps.len(), |i: int| ps[i].name)
}

/// A capability over the full packet list: validate it, returning nothing
/// or every violation found.
pub trait SemanticAnalyzer {
    /// What this analyzer reports on a given packet list.
    spec fn spec_analyze(&self, ps: Seq<PacketView>) -> MorphResultView<()>;

    /// Validates the packet list, reporting every violation of this
    /// analyzer's one concern.
    fn analyze(&self, packets: &Vec<Packet>) -> (r: MorphResult<()>)
        ensures
            spec_unit_result(&r) == self.spec_analyze(packets.deep_view()),
    ;
}

/// One error per packet name already seen among the first `k` packets:
/// the first occurrence is not flagged, every repeat is.
pub open spec fn spec_name_errors(ps: Seq<PacketView>, k: int) -> Seq<MorphErrorView>
    decreases k,
    when 0 <= k <= ps.len()
{
    if k <= 0 {
        Seq::<MorphErrorView>::empty()
    } else {
        spec_name_errors(ps, k - 1) + (if spec_packet_names(ps).take(k - 1).contains(
            ps[k - 1].name,
        ) {
            seq![spec_semantic_error("Duplicate packet name: "@ + ps[k - 1].name)]
        } else {
            Seq::<MorphErrorView>::empty()
        })
    }
}

/// Flags every packet whose name was already used by an earlier packet,
/// case-sensitively.
pub struct NameSemanticAnalyzer;

impl SemanticAnalyzer for NameSemanticAnalyzer {
    open spec fn spec_analyze(&self, ps: Seq<PacketView>) -> MorphResultView<()> {
        spec_errors_result(spec_name_errors(ps, ps.len() as int))
    }

    fn analyze(&self, packets: &Vec<Packet>) -> (r: MorphResult<()>) {
        let ghost psd = packets.deep_view();
        let mut all_errors: Vec<MorphError> = Vec::new();
        let mut existing_names: Vec<String> = Vec::new();
        let n = packets.len();
        let mut i: usize = 0;
        proof {
            assert(existing_names.deep_view() =~= spec_packet_names(psd).take(0));
            assert(all_errors.deep_view() =~= spec_name_errors(psd, 0));
        }
        while i < n
            invariant
                0 <= i <= n,
                n == packets@.len(),
                psd == packets.deep_view(),
                existing_names.deep_view() == spec_packet_names(psd).take(i as int),
                all_errors.deep_view() == spec_name_errors(psd, i as int),
            decreases n - i,
        {
            proof {
                assert(psd[i as int] == packets@[i as int].deep_view());
            }
            let name = &packets[i].name;
            let ghost e0 = all_errors.deep_view();
            if vec_contains_str(&existing_names, name.as_str()) {
                let mut message = String::from_str("Duplicate packet name: ");
                message.append(name.as_str());
                proof {
                    assert(message@ =~= "Duplicate packet name: "@ + psd[i as int].name);
                }
                all_errors.push(MorphError::Semantic(SemanticError { message }));
                proof {
                    assert(all_errors.deep_view() =~= e0.push(
                        spec_semantic_error("Duplicate packet name: "@ + psd[i as int].name),
                    ));
                    assert(all_errors.deep_view() =~= spec_name_errors(psd, i + 1));
                }
            } else {
                proof {
                    assert(all_errors.deep_view() =~= spec_name_errors(psd, i + 1));
                }
            }
            let ghost x0 = existing_names.deep_view();
            existing_names.push(name.clone());
            proof {
                assert(existing_names.deep_view() =~= x0.push(psd[i as int].name));
                assert(existing_names.deep_view() =~= spec_packet_names(psd).take(i + 1));
            }
            i = i + 1;
        }
        proof {
            assert(all_errors.deep_view().len() == 0 <==> spec_name_errors(
                psd,
                psd.len() as int,
            ).len() == 0);
        }
        if all_errors.is_empty() {
            MorphResult::Success(())
        } else {
            MorphResult::Errors(all_errors)
        }
    }
}

/// The ids of the non-automatic packets among the first `k`, in order.
pub open spec fn spec_nonauto_ids(ps: Seq<PacketView>, k: int) -> Seq<int>
    decreases k,
    when 0 <= k <= ps.len()
{
    if k <= 0 {
        Seq::<int>::empty()
    } else {
        spec_nonauto_ids(ps, k - 1) + (if ps[k - 1].is_auto {
            Seq::<int>::empty()
        } else {
            seq![ps[k - 1].id]
        })
    }
}

/// The id errors among the first `k` packets: automatic ids are skipped; a
/// negative id and an id already used by an earlier non-automatic packet
/// are flagged independently, and both when both apply.
pub open spec fn spec_id_errors(ps: Seq<PacketView>, k: int) -> Seq<MorphErrorView>
    decreases k,
    when 0 <= k <= ps.len()
{
    if k <= 0 {
        Seq::<MorphErrorView>::empty()
    } else {
        spec_id_errors(ps, k - 1) + (if ps[k - 1].is_auto {
            Seq::<MorphErrorView>::empty()
        } else {
            (if ps[k - 1].id < 0 {
                seq![
                    spec_semantic_error(
                        "Id of packet '"@ + ps[k - 1].name
                            + "' can not be less than 0, actual value is "@ + spec_int_digits(
                            ps[k - 1].id,
                        ),
                    ),
                ]
            } else {
                Seq::<MorphErrorView>::empty()
            }) + (if spec_nonauto_ids(ps, k - 1).contains(ps[k - 1].id) {
                seq![
                    spec_semantic_error("Duplicate packet id: "@ + spec_int_digits(ps[k - 1].id)),
                ]
            } else {
                Seq::<MorphErrorView>::empty()
            })
        })
    }
}

/// The id values as mathematical integers.
pub open spec fn ints32_of(s: Seq<i32>) -> Seq<int> {
    Seq::new(s.len(), |i: int| s[i] as int)
}

/// Whether a list of ids holds a given id.
pub fn vec_contains_i32(v: &Vec<i32>, x: i32) -> (r: bool)
    ensures
        r == ints32_of(v@).contains(x as int),
{
    let n = v.len();
    let mut i: usize = 0;
    while i < n
        invariant
            0 <= i <= n,
            n == v@.len(),
            forall|j: int| 0 <= j < i ==> ints32_of(v@)[j] != x as int,
        decreases n - i,
    {
        if v[i] == x {
            proof {
                assert(ints32_of(v@)[i as int] == x as int);
            }
            return true;
        }
        proof {
            assert(ints32_of(v@)[i as int] == v@[i as int] as int);
        }
        i = i + 1;
    }
    proof {
        if ints32_of(v@).contains(x as int) {
            let j = choose|j: int| 0 <= j < ints32_of(v@).len() && ints32_of(v@)[j] == x as int;
            assert(false);
        }
    }
    false
}

/// Flags every non-automatic packet whose id is negative or already used
/// by an earlier non-automatic packet; automatic ids are never flagged.
pub struct IdSemanticAnalyzer;

impl SemanticAnalyzer for IdSemanticAnalyzer {
    open spec fn spec_analyze(&self, ps: Seq<PacketView>) -> MorphResultView<()> {
        spec_errors_result(spec_id_errors(ps, ps.len() as int))
    }

    fn analyze(&self, packets: &Vec<Packet>) -> (r: MorphResult<()>) {
        let ghost psd = packets.deep_view();
        let mut all_errors: Vec<MorphError> = Vec::new();
        let mut existing_ids: Vec<i32> = Vec::new();
        let n = packets.len();
        let mut i: usize = 0;
        proof {
            assert(ints32_of(existing_ids@) =~= spec_nonauto_ids(psd, 0));
            assert(all_errors.deep_view() =~= spec_id_errors(psd, 0));
        }
        while i < n
            invariant
                0 <= i <= n,
                n == packets@.len(),
                psd == packets.deep_view(),
                ints32_of(existing_ids@) == spec_nonauto_ids(psd, i as int),
                all_errors.deep_view() == spec_id_errors(psd, i as int),
            decreases n - i,
        {
            proof {
                assert(psd[i as int] == packets@[i as int].deep_view());
            }
            let packet = &packets[i];
            if packet.is_auto {
                proof {
                    assert(ints32_of(existing_ids@) =~= spec_nonauto_ids(psd, i + 1));
                    assert(all_errors.deep_view() =~= spec_id_errors(psd, i + 1));
                }
                i = i + 1;
                continue ;
            }
            let ghost e0 = all_errors.deep_view();
            if packet.id < 0 {
                let digits = i32_to_string(packet.id);
                let mut message = String::from_str("Id of packet '");
                message.append(packet.name.as_str());
                message.append("' can not be less than 0, actual value is ");
                message.append(digits.as_str());
                proof {
                    assert(message@ =~= "Id of packet '"@ + psd[i as int].name
                        + "' can not be less than 0, actual value is "@ + spec_int_digits(
                        psd[i as int].id,
                    ));
                }
                all_errors.push(MorphError::Semantic(SemanticError { message }));
            }
            let ghost e1 = all_errors.deep_view();
            if vec_contains_i32(&existing_ids, packet.id) {
                let digits = i32_to_string(packet.id);
                let mut message = String::from_str("Duplicate packet id: ");
                message.append(digits.as_str());
                proof {
                    assert(message@ =~= "Duplicate packet id: "@ + spec_int_digits(
                        psd[i as int].id,
                    ));
                }
                all_errors.push(MorphError::Semantic(SemanticError { message }));
            }
            proof {
                assert(all_errors.deep_view() =~= spec_id_errors(psd, i + 1));
            }
            let ghost x0 = existing_ids@;
            existing_ids.push(packet.id);
            proof {
                assert(ints32_of(existing_ids@) =~= ints32_of(x0).push(psd[i as int].id));
                assert(ints32_of(existing_ids@) =~= spec_nonauto_ids(psd, i + 1));
            }
            i = i + 1;
        }
        if all_errors.is_empty() {
            MorphResult::Success(())
        } else {
            MorphResult::Errors(all_errors)
        }
    }
}

/// The field names of one packet, in declaration order.
pub open spec fn spec_field_names(fs: Seq<FieldView>) -> Seq<Seq<char>> {
    Seq::new(fs.len(), |i: int| fs[i].name)
}

/// The field names of the first `k` packets, in declaration order.
pub open spec fn spec_seen_field_names(ps: Seq<PacketView>, k: int) -> Seq<Seq<char>>
    decreases k,
    when 0 <= k <= ps.len()
{
    if k <= 0 {
        Seq::<Seq<char>>::empty()
    } else {
        spec_seen_field_names(ps, k - 1) + spec_field_names(ps[k - 1].fields)
    }
}

/// One error per field among the first `j` of a packet whose name was
/// already seen anywhere in the compiled unit.
pub open spec fn spec_field_errors_in(p: PacketView, seen: Seq<Seq<char>>, j: int) -> Seq<
    MorphErrorView,
>
    decreases j,
    when 0 <= j <= p.fields.len()
{
    if j <= 0 {
        Seq::<MorphErrorView>::empty()
    } else {
        spec_field_errors_in(p, seen, j - 1) + (if (seen + spec_field_names(p.fields).take(
            j - 1,
        )).contains(p.fields[j - 1].name) {
            seq![
                spec_semantic_error(
                    "Duplicate field name in packet '"@ + p.name + "': "@ + p.fields[j - 1].name,
                ),
            ]
        } else {
            Seq::<MorphErrorView>::empty()
        })
    }
}

/// The duplicate-field errors of the first `k` packets, a field name being
/// global across all packets of the compiled unit.
pub open spec fn spec_field_errors(ps: Seq<PacketView>, k: int) -> Seq<MorphErrorView>
    decreases k,
    when 0 <= k <= ps.len()
{
    if k <= 0 {
        Seq::<MorphErrorView>::empty()
    } else {
        spec_field_errors(ps, k - 1) + spec_field_errors_in(
            ps[k - 1],
            spec_seen_field_names(ps, k - 1),
            ps[k - 1].fields.len() as int,
        )
    }
}

/// Flags every field whose name was already seen anywhere in the compiled
/// unit, across all packets.
pub struct FieldSemanticAnalyzer;

impl SemanticAnalyzer for FieldSemanticAnalyzer {
    open spec fn spec_analyze(&self, ps: Seq<PacketView>) -> MorphResultView<()> {
        spec_errors_result(spec_field_errors(ps, ps.len() as int))
    }

    fn analyze(&self, packets: &Vec<Packet>) -> (r: MorphResult<()>) {
        let ghost psd = packets.deep_view();
        let mut all_errors: Vec<MorphError> = Vec::new();
        let mut existing_names: Vec<String> = Vec::new();
        let n = packets.len();
        let mut i: usize = 0;
        proof {
            assert(existing_names.deep_view() =~= spec_seen_field_names(psd, 0));
            assert(all_errors.deep_view() =~= spec_field_errors(psd, 0));
        }
        while i < n
            invariant
                0 <= i <= n,
                n == packets@.len(),
                psd == packets.deep_view(),
                existing_names.deep_view() == spec_seen_field_names(psd, i as int),
                all_errors.deep_view() == spec_field_errors(psd, i as int),
            decreases n - i,
        {
            proof {
                assert(psd[i as int] == packets@[i as int].deep_view());
            }
            let packet = &packets[i];
            let ghost p = psd[i as int];
            let ghost seen = existing_names.deep_view();
            let ghost e_base = all_errors.deep_view();
            let m = packet.fields.len();
            let mut j: usize = 0;
            proof {
                assert(spec_field_names(p.fields).take(0) =~= Seq::<Seq<char>>::empty());
                assert(seen + spec_field_names(p.fields).take(0) =~= seen);
                assert(all_errors.deep_view() =~= e_base + spec_field_errors_in(p, seen, 0));
            }
            while j < m
                invariant
                    0 <= j <= m,
                    m == packet.fields@.len(),
                    m == p.fields.len(),
                    packet == &packets@[i as int],
                    0 <= i < n,
                    n == packets@.len(),
                    psd == packets.deep_view(),
                    p == psd[i as int],
                    existing_names.deep_view() == seen + spec_field_names(p.fields).take(j as int),
                    all_errors.deep_view() == e_base + spec_field_errors_in(p, seen, j as int),
                decreases m - j,
            {
                proof {
                    assert(p.fields[j as int] == packet.fields@[j as int].deep_view());
                }
                let field_name = &packet.fields[j].name;
                let ghost e0 = all_errors.deep_view();
                if vec_contains_str(&existing_names, field_name.as_str()) {
                    let mut message = String::from_str("Duplicate field name in packet '");
                    message.append(packet.name.as_str());
                    message.append("': ");
                    message.append(field_name.as_str());
                    proof {
                        assert(message@ =~= "Duplicate field name in packet '"@ + p.name + "': "@
                            + p.fields[j as int].name);
                    }
                    all_errors.push(MorphError::Semantic(SemanticError { message }));
                    proof {
                        assert(all_errors.deep_view() =~= e0.push(
                            spec_semantic_error(
                                "Duplicate field name in packet '"@ + p.name + "': "@
                                    + p.fields[j as int].name,
                            ),
                        ));
                        assert(all_errors.deep_view() =~= e_base + spec_field_errors_in(
                            p,
                            seen,
                            j + 1,
                        ));
                    }
                } else {
                    proof {
                        assert(all_errors.deep_view() =~= e_base + spec_field_errors_in(
                            p,
                            seen,
                            j + 1,
                        ));
                    }
                }
                let ghost x0 = existing_names.deep_view();
                existing_names.push(field_name.clone());
                proof {
                    assert(existing_names.deep_view() =~= x0.push(p.fields[j as int].name));
                    assert(existing_names.deep_view() =~= seen + spec_field_names(p.fields).take(
                        j + 1,
                    ));
                }
                j = j + 1;
            }
            proof {
                assert(spec_field_names(p.fields).take(m as int) =~= spec_field_names(p.fields));
                assert(existing_names.deep_view() =~= spec_seen_field_names(psd, i + 1));
                assert(all_errors.deep_view() =~= spec_field_errors(psd, i + 1));
            }
            i = i + 1;
        }
        if all_errors.is_empty() {
            MorphResult::Success(())
        } else {
            MorphResult::Errors(all_errors)
        }
    }
}

/// A node of the packet dependency graph: a packet name as its own stable
/// identity.
#[derive(Debug)]
pub struct DependentField {
    pub name: String,
}

impl DependentField {
    /// Wraps a packet name as a graph node.
    pub fn new(value: String) -> (r: Self)
        ensures
            r.name == value,
    {
        DependentField { name: value }
    }
}

impl Dependent for DependentField {
    open spec fn spec_id(&self) -> Seq<char> {
        self.name@
    }

    fn dependent_id(&self) -> (r: &str) {
        self.name.as_str()
    }
}

/// The nested packet name a field's type references, if any: a bare nested
/// type, or one wrapped in a single array.
pub open spec fn spec_field_dep(t: FieldTypeView) -> Option<Seq<char>> {
    match t {
        FieldTypeView::Nested(n) => Some(n),
        FieldTypeView::Array(b) => match *b {
            FieldTypeView::Nested(n) => Some(n),
            _ => None,
        },
        _ => None,
    }
}

/// One graph node per packet among the first `k`, keyed by packet name.
pub open spec fn spec_dep_nodes_model(ps: Seq<PacketView>, k: int) -> GraphModel
    decreases k,
    when 0 <= k <= ps.len()
{
    if k <= 0 {
        GraphModel { keys: Seq::<Seq<char>>::empty(), edges: Seq::empty() }
    } else {
        model_node(spec_dep_nodes_model(ps, k - 1), ps[k - 1].name)
    }
}

/// The edges of one packet's first `j` fields: each resolvable nested
/// reference adds one edge from the packet to the referenced name, and
/// each unresolvable one adds one error instead.
pub open spec fn spec_add_deps_fields(
    m: GraphModel,
    p: PacketView,
    names: Seq<Seq<char>>,
    j: int,
) -> (GraphModel, Seq<MorphErrorView>)
    decreases j,
    when 0 <= j <= p.fields.len()
{
    if j <= 0 {
        (m, Seq::<MorphErrorView>::empty())
    } else {
        let (m1, es1) = spec_add_deps_fields(m, p, names, j - 1);
        match spec_field_dep(p.fields[j - 1].typ) {
            Some(t) => if names.contains(t) {
                (model_edge(model_node(m1, t), p.name, t), es1)
            } else {
                (m1, es1 + seq![spec_dependency_error("Dependency '"@ + t + "' does not exist"@)])
            },
            None => (m1, es1),
        }
    }
}

/// The dependency edges of the first `k` packets; construction stops at
/// the first packet with an unresolvable reference, keeping its errors.
pub open spec fn spec_add_deps_packets(
    m: GraphModel,
    ps: Seq<PacketView>,
    names: Seq<Seq<char>>,
    k: int,
) -> (GraphModel, Option<Seq<MorphErrorView>>)
    decreases k,
    when 0 <= k <= ps.len()
{
    if k <= 0 {
        (m, None)
    } else {
        let (m1, failure) = spec_add_deps_packets(m, ps, names, k - 1);
        match failure {
            Some(es) => (m1, Some(es)),
            None => {
                let (m2, es) = spec_add_deps_fields(
                    m1,
                    ps[k - 1],
                    names,
                    ps[k - 1].fields.len() as int,
                );
                if es.len() == 0 {
                    (m2, None)
                } else {
                    (m2, Some(es))
                }
            },
        }
    }
}

/// What building the packet dependency graph yields: its model, or the
/// errors of the first packet with an unresolvable reference.
pub open spec fn spec_dep_build(ps: Seq<PacketView>) -> (GraphModel, Option<Seq<MorphErrorView>>) {
    spec_add_deps_packets(
        spec_dep_nodes_model(ps, ps.len() as int),
        ps,
        spec_packet_names(ps),
        ps.len() as int,
    )
}

/// What dependency analysis reports: the missing-reference errors of the
/// first failing packet, else exactly one error describing the first cycle
/// found, else nothing.
pub open spec fn spec_dep_analyze(ps: Seq<PacketView>) -> MorphResultView<()> {
    let (m, failure) = spec_dep_build(ps);
    match failure {
        Some(es) => MorphResultView::Errors(es),
        None => match model_find_cycle(m) {
            Some(c) => MorphResultView::Errors(
                seq![spec_dependency_error("Cycle detected: "@ + spec_cycle_render(c))],
            ),
            None => MorphResultView::Success(()),
        },
    }
}

/// Folding nodes keeps keys unique, grows them, and leaves edges alone.
pub proof fn lemma_model_node_props(m: GraphModel, key: Seq<char>)
    ensures
        model_node(m, key).edges == m.edges,
        model_node(m, key).keys.contains(key),
        forall|x: Seq<char>| m.keys.contains(x) ==> model_node(m, key).keys.contains(x),
        m.keys.no_duplicates() ==> model_node(m, key).keys.no_duplicates(),
{
    if !m.keys.contains(key) {
        if m.keys.no_duplicates() {
            crate::graph::lemma_push_no_duplicates(m.keys, key);
        }
        assert(model_node(m, key).keys.last() == key);
        assert forall|x: Seq<char>| m.keys.contains(x) implies model_node(m, key).keys.contains(
            x,
        ) by {
            let j = choose|j: int| 0 <= j < m.keys.len() && m.keys[j] == x;
            assert(model_node(m, key).keys[j] == x);
        }
    }
}

/// Adding an edge between existing nodes preserves well-formedness and the
/// keys.
pub proof fn lemma_model_edge_wf(m: GraphModel, from: Seq<char>, to: Seq<char>)
    requires
        m.wf(),
        m.keys.contains(from),
        m.keys.contains(to),
    ensures
        model_edge(m, from, to).wf(),
        model_edge(m, from, to).keys == m.keys,
{
    let m2 = model_edge(m, from, to);
    if m.edge_keys().contains(from) {
        let k = crate::graph::first_index_of(m.edge_keys(), from);
        crate::graph::lemma_first_index_of(m.edge_keys(), from);
        assert(m2.edge_keys() =~= m.edge_keys().update(k, from));
        assert(m.edge_keys()[k] == m.edges[k].0);
        assert(m.edges[k].0 == from);
        assert(m2.edge_keys() =~= m.edge_keys());
        assert forall|i: int, j: int|
            0 <= i < m2.edges.len() && 0 <= j < m2.edges[i].1.len() implies m2.has_key(
            #[trigger] m2.edges[i].1[j],
        ) by {
            if i == k {
                if j < m.edges[k].1.len() {
                    assert(m2.edges[i].1[j] == m.edges[i].1[j]);
                } else {
                    assert(m2.edges[i].1[j] == to);
                }
            } else {
                assert(m2.edges[i] == m.edges[i]);
            }
        }
        assert forall|i: int| 0 <= i < m2.edges.len() implies m2.has_key(
            #[trigger] m2.edges[i].0,
        ) by {
            if i == k {
            } else {
                assert(m2.edges[i] == m.edges[i]);
            }
        }
    } else {
        assert(m2.edge_keys() =~= m.edge_keys().push(from));
        crate::graph::lemma_push_no_duplicates(m.edge_keys(), from);
        assert forall|i: int, j: int|
            0 <= i < m2.edges.len() && 0 <= j < m2.edges[i].1.len() implies m2.has_key(
            #[trigger] m2.edges[i].1[j],
        ) by {
            if i < m.edges.len() {
                assert(m2.edges[i] == m.edges[i]);
            } else {
                assert(m2.edges[i].1 =~= seq![to]);
                assert(m2.edges[i].1[j] == to);
            }
        }
        assert forall|i: int| 0 <= i < m2.edges.len() implies m2.has_key(
            #[trigger] m2.edges[i].0,
        ) by {
            if i < m.edges.len() {
                assert(m2.edges[i] == m.edges[i]);
            }
        }
    }
}

/// The node fold over the packets yields a well-formed, edgeless model
/// holding every packet name.
pub proof fn lemma_dep_nodes_model_props(ps: Seq<PacketView>, k: int)
    requires
        0 <= k <= ps.len(),
    ensures
        spec_dep_nodes_model(ps, k).edges == Seq::<(Seq<char>, Seq<Seq<char>>)>::empty(),
        spec_dep_nodes_model(ps, k).keys.no_duplicates(),
        spec_dep_nodes_model(ps, k).wf(),
        forall|i: int| 0 <= i < k ==> spec_dep_nodes_model(ps, k).keys.contains(ps[i].name),
    decreases k,
{
    if k > 0 {
        lemma_dep_nodes_model_props(ps, k - 1);
        lemma_model_node_props(spec_dep_nodes_model(ps, k - 1), ps[k - 1].name);
        let m = spec_dep_nodes_model(ps, k);
        assert(m.edge_keys() =~= Seq::<Seq<char>>::empty());
    } else {
        let m = spec_dep_nodes_model(ps, k);
        assert(m.edge_keys() =~= Seq::<Seq<char>>::empty());
    }
}

/// The field fold preserves well-formedness and the keys whenever every
/// resolvable name is a key.
pub proof fn lemma_add_deps_fields_wf(
    m: GraphModel,
    p: PacketView,
    names: Seq<Seq<char>>,
    j: int,
)
    requires
        0 <= j <= p.fields.len(),
        m.wf(),
        m.keys.contains(p.name),
        forall|t: Seq<char>| names.contains(t) ==> m.keys.contains(t),
    ensures
        spec_add_deps_fields(m, p, names, j).0.wf(),
        spec_add_deps_fields(m, p, names, j).0.keys == m.keys,
    decreases j,
{
    if j > 0 {
        lemma_add_deps_fields_wf(m, p, names, j - 1);
        let (m1, es1) = spec_add_deps_fields(m, p, names, j - 1);
        match spec_field_dep(p.fields[j - 1].typ) {
            Some(t) => {
                if names.contains(t) {
                    lemma_model_node_props(m1, t);
                    assert(model_node(m1, t) == m1);
                    lemma_model_edge_wf(m1, p.name, t);
                }
            },
            None => {},
        }
    }
}

/// The packet fold preserves well-formedness and the keys.
pub proof fn lemma_add_deps_packets_wf(
    m: GraphModel,
    ps: Seq<PacketView>,
    names: Seq<Seq<char>>,
    k: int,
)
    requires
        0 <= k <= ps.len(),
        m.wf(),
        forall|i: int| 0 <= i < ps.len() ==> m.keys.contains(#[trigger] ps[i].name),
        forall|t: Seq<char>| names.contains(t) ==> m.keys.contains(t),
    ensures
        spec_add_deps_packets(m, ps, names, k).0.wf(),
        spec_add_deps_packets(m, ps, names, k).0.keys == m.keys,
    decreases k,
{
    if k > 0 {
        lemma_add_deps_packets_wf(m, ps, names, k - 1);
        let (m1, failure) = spec_add_deps_packets(m, ps, names, k - 1);
        match failure {
            Some(_) => {},
            None => {
                lemma_add_deps_fields_wf(m1, ps[k - 1], names, ps[k - 1].fields.len() as int);
            },
        }
    }
}

/// Validates every nested type reference and the acyclicity of the
/// reference graph: an unresolvable reference fails construction at once,
/// and otherwise the first cycle found, if any, is reported as one error.
pub struct DependencySemanticAnalyzer;

impl DependencySemanticAnalyzer {
    /// The names of all packets, against which references are resolved.
    pub fn collect_existing_ids(&self, packets: &Vec<Packet>) -> (r: Vec<String>)
        ensures
            r.deep_view() == spec_packet_names(packets.deep_view()),
    {
        let ghost psd = packets.deep_view();
        let mut out: Vec<String> = Vec::new();
        let n = packets.len();
        let mut i: usize = 0;
        proof {
            assert(out.deep_view() =~= spec_packet_names(psd).take(0));
        }
        while i < n
            invariant
                0 <= i <= n,
                n == packets@.len(),
                psd == packets.deep_view(),
                out.deep_view() == spec_packet_names(psd).take(i as int),
            decreases n - i,
        {
            proof {
                assert(psd[i as int] == packets@[i as int].deep_view());
            }
            let ghost x0 = out.deep_view();
            out.push(packets[i].name.clone());
            proof {
                assert(out.deep_view() =~= x0.push(psd[i as int].name));
                assert(out.deep_view() =~= spec_packet_names(psd).take(i + 1));
            }
            i = i + 1;
        }
        proof {
            assert(out.deep_view() =~= spec_packet_names(psd));
        }
        out
    }

    /// Inserts one packet as a graph node, keyed by its name.
    pub fn add_packet_node(
        &self,
        builder: &mut DependentGraphBuilder<DependentField>,
        packet: &Packet,
    )
        ensures
            final(builder).model_b() == model_node(old(builder).model_b(), packet.name@),
    {
        let node = DependentField::new(packet.name.clone());
        builder.node(node);
    }

    /// Adds one dependency edge after confirming the referenced name
    /// exists; a missing name fails with one error and leaves the graph
    /// untouched.
    pub fn add_graph_dependency(
        &self,
        builder: &mut DependentGraphBuilder<DependentField>,
        current_id: &str,
        ref_name: &str,
        existing_ids: &Vec<String>,
    ) -> (r: MorphResult<()>)
        ensures
            existing_ids.deep_view().contains(ref_name@) ==> (final(builder).model_b()
                == model_edge(
                model_node(old(builder).model_b(), ref_name@),
                current_id@,
                ref_name@,
            ) && spec_unit_result(&r) == MorphResultView::<()>::Success(())),
            !existing_ids.deep_view().contains(ref_name@) ==> (final(builder).model_b() == old(
                builder,
            ).model_b() && spec_unit_result(&r) == MorphResultView::<()>::Errors(
                seq![spec_dependency_error("Dependency '"@ + ref_name@ + "' does not exist"@)],
            )),
    {
        if vec_contains_str(existing_ids, ref_name) {
            let dep_node = DependentField::new(String::from_str(ref_name));
            builder.node(dep_node);
            builder.edge(String::from_str(current_id), String::from_str(ref_name));
            MorphResult::Success(())
        } else {
            let mut message = String::from_str("Dependency '");
            message.append(ref_name);
            message.append("' does not exist");
            proof {
                assert(message@ =~= "Dependency '"@ + ref_name@ + "' does not exist"@);
            }
            let err = MorphError::DependencyResolving(DependencyResolvingError { message });
            let errors = vec![err];
            proof {
                assert(errors.deep_view() =~= seq![
                    spec_dependency_error("Dependency '"@ + ref_name@ + "' does not exist"@),
                ]);
            }
            MorphResult::Errors(errors)
        }
    }

    /// Adds the dependency edges of one packet's fields, accumulating one
    /// error per unresolvable reference.
    #[verifier::loop_isolation(false)]
    pub fn add_packet_dependencies(
        &self,
        builder: &mut DependentGraphBuilder<DependentField>,
        packet: &Packet,
        existing_ids: &Vec<String>,
    ) -> (r: MorphResult<()>)
        ensures
            ({
                let (m2, es) = spec_add_deps_fields(
                    old(builder).model_b(),
                    packet@,
                    existing_ids.deep_view(),
                    packet@.fields.len() as int,
                );
                final(builder).model_b() == m2 && spec_unit_result(&r) == spec_errors_result(es)
            }),
    {
        let ghost m0 = builder.model_b();
        let ghost pv = packet@;
        let ghost names = existing_ids.deep_view();
        let mut all_errors: Vec<MorphError> = Vec::new();
        let n = packet.fields.len();
        let mut j: usize = 0;
        proof {
            assert(all_errors.deep_view() =~= Seq::<MorphErrorView>::empty());
            assert(pv.fields.len() == packet.fields@.len());
        }
        while j < n
            invariant
                0 <= j <= n,
                n == packet.fields@.len(),
                pv == packet@,
                names == existing_ids.deep_view(),
                n == pv.fields.len(),
                builder.model_b() == spec_add_deps_fields(m0, pv, names, j as int).0,
                all_errors.deep_view() == spec_add_deps_fields(m0, pv, names, j as int).1,
            decreases n - j,
        {
            proof {
                assert(pv.fields[j as int] == packet.fields@[j as int].deep_view());
            }
            let ghost e0 = all_errors.deep_view();
            match &packet.fields[j].typ {
                FieldType::Nested(ref_name) => {
                    proof {
                        assert(spec_field_dep(pv.fields[j as int].typ) == Some(ref_name@));
                    }
                    match self.add_graph_dependency(
                        builder,
                        packet.name.as_str(),
                        ref_name.as_str(),
                        existing_ids,
                    ) {
                        MorphResult::Success(_) => {},
                        MorphResult::Errors(mut es) => {
                            all_errors.append(&mut es);
                            proof {
                                assert(all_errors.deep_view() =~= e0 + seq![
                                    spec_dependency_error(
                                        "Dependency '"@ + ref_name@ + "' does not exist"@,
                                    ),
                                ]);
                            }
                        },
                    }
                },
                FieldType::Array(inner_type) => {
                    match &**inner_type {
                        FieldType::Nested(ref_name) => {
                            proof {
                                assert((**inner_type)@ == FieldTypeView::Nested(ref_name@));
                                assert(packet.fields@[j as int].typ@ == FieldTypeView::Array(
                                    Box::new(FieldTypeView::Nested(ref_name@)),
                                ));
                                assert(spec_field_dep(pv.fields[j as int].typ) == Some(
                                    ref_name@,
                                ));
                            }
                            match self.add_graph_dependency(
                                builder,
                                packet.name.as_str(),
                                ref_name.as_str(),
                                existing_ids,
                            ) {
                                MorphResult::Success(_) => {},
                                MorphResult::Errors(mut es) => {
                                    all_errors.append(&mut es);
                                    proof {
                                        assert(all_errors.deep_view() =~= e0 + seq![
                                            spec_dependency_error(
                                                "Dependency '"@ + ref_name@
                                                    + "' does not exist"@,
                                            ),
                                        ]);
                                    }
                                },
                            }
                        },
                        _ => {
                            proof {
                                assert(packet.fields@[j as int].typ@ == FieldTypeView::Array(
                                    Box::new((**inner_type)@),
                                ));
                                assert(spec_field_dep(pv.fields[j as int].typ) is None);
                            }
                        },
                    }
                },
                _ => {
                    proof {
                        assert(spec_field_dep(pv.fields[j as int].typ) is None);
                    }
                },
            }
            j = j + 1;
        }
        if all_errors.is_empty() {
            MorphResult::Success(())
        } else {
            MorphResult::Errors(all_errors)
        }
    }

    /// Builds the packet dependency graph: one node per packet, one edge
    /// per resolvable nested reference; the first packet with an
    /// unresolvable reference fails construction at once.
    #[verifier::loop_isolation(false)]
    pub fn build_dependency_graph(&self, packets: &Vec<Packet>) -> (r: MorphResult<
        DependencyGraph<DependentField>,
    >)
        ensures
            ({
                let (m, failure) = spec_dep_build(packets.deep_view());
                &&& (r matches MorphResult::Success(g) ==> failure is None && g.model() == m
                    && g.wf())
                &&& (r matches MorphResult::Errors(es) ==> failure == Some(es.deep_view()))
            }),
    {
        let ghost psd = packets.deep_view();
        let mut builder = DependentGraphBuilder::<DependentField>::new();
        proof {
            assert(builder.model_b() =~= GraphModel {
                keys: Seq::<Seq<char>>::empty(),
                edges: Seq::empty(),
            });
            assert(builder.model_b() == spec_dep_nodes_model(psd, 0));
        }

        let existing_ids = self.collect_existing_ids(packets);
        let ghost names = existing_ids.deep_view();

        let n = packets.len();
        proof {
            assert(psd.len() == packets@.len());
        }
        let mut i: usize = 0;
        while i < n
            invariant
                0 <= i <= n,
                n == packets@.len(),
                psd == packets.deep_view(),
                builder.model_b() == spec_dep_nodes_model(psd, i as int),
            decreases n - i,
        {
            proof {
                assert(psd[i as int] == packets@[i as int].deep_view());
            }
            self.add_packet_node(&mut builder, &packets[i]);
            i = i + 1;
        }
        let ghost m0 = builder.model_b();
        proof {
            lemma_dep_nodes_model_props(psd, psd.len() as int);
            assert forall|t: Seq<char>| names.contains(t) implies m0.keys.contains(t) by {
                let q = choose|q: int| 0 <= q < names.len() && names[q] == t;
                assert(spec_packet_names(psd)[q] == psd[q].name);
            }
        }

        let mut k: usize = 0;
        while k < n
            invariant
                0 <= k <= n,
                n == packets@.len(),
                psd == packets.deep_view(),
                names == existing_ids.deep_view(),
                m0 == spec_dep_nodes_model(psd, psd.len() as int),
                spec_add_deps_packets(m0, psd, names, k as int) == (
                    builder.model_b(),
                    Option::<Seq<MorphErrorView>>::None,
                ),
            decreases n - k,
        {
            proof {
                assert(psd[k as int] == packets@[k as int].deep_view());
            }
            match self.add_packet_dependencies(&mut builder, &packets[k], &existing_ids) {
                MorphResult::Success(_) => {},
                MorphResult::Errors(es) => {
                    proof {
                        assert(spec_add_deps_packets(m0, psd, names, k + 1) == (
                            builder.model_b(),
                            Some(es.deep_view()),
                        ));
                        lemma_dep_build_failure_stable(m0, psd, names, k + 1, psd.len() as int);
                    }
                    return MorphResult::Errors(es);
                },
            }
            k = k + 1;
        }
        proof {
            lemma_add_deps_packets_wf(m0, psd, names, psd.len() as int);
        }
        let graph = builder.build();
        proof {
            lemma_model_relates(&graph);
            assert(graph.model().wf());
        }
        MorphResult::Success(graph)
    }

    /// Analyzes the packet dependencies: graph construction, then cycle
    /// detection, failing with exactly one error on the first cycle found.
    pub fn analyze_dependencies(&self, packets: &Vec<Packet>) -> (r: MorphResult<()>)
        ensures
            spec_unit_result(&r) == spec_dep_analyze(packets.deep_view()),
    {
        let graph = match self.build_dependency_graph(packets) {
            MorphResult::Success(graph) => graph,
            MorphResult::Errors(errors) => {
                return MorphResult::Errors(errors);
            },
        };
        proof {
            lemma_find_cycle_bridge(&graph);
        }
        match graph.find_cycle() {
            Some(cycle) => {
                let rendered = cycle.render();
                let mut message = String::from_str("Cycle detected: ");
                message.append(rendered.as_str());
                proof {
                    assert(message@ =~= "Cycle detected: "@ + spec_cycle_render(
                        cycle.nodes.deep_view(),
                    ));
                }
                let err = MorphError::DependencyResolving(
                    DependencyResolvingError { message },
                );
                let errors = vec![err];
                proof {
                    assert(errors.deep_view() =~= seq![
                        spec_dependency_error(
                            "Cycle detected: "@ + spec_cycle_render(cycle.nodes.deep_view()),
                        ),
                    ]);
                }
                MorphResult::Errors(errors)
            },
            None => MorphResult::Success(()),
        }
    }
}

/// The shape of a missing-reference error for a name.
pub open spec fn spec_missing_dep_error(t: Seq<char>) -> MorphErrorView {
    spec_dependency_error("Dependency '"@ + t + "' does not exist"@)
}

/// Whether every error of a list reports a reference to a name no packet
/// bears.
pub open spec fn all_missing_dep_errors(es: Seq<MorphErrorView>, names: Seq<Seq<char>>) -> bool {
    forall|q: int|
        0 <= q < es.len() ==> exists|t: Seq<char>|
            #[trigger] es[q] == spec_missing_dep_error(t) && !names.contains(t)
}

/// The field fold only accumulates errors, one per unresolvable
/// reference, each naming its missing dependency.
pub proof fn lemma_add_deps_fields_errors(
    m: GraphModel,
    p: PacketView,
    names: Seq<Seq<char>>,
    j: int,
)
    requires
        0 <= j <= p.fields.len(),
    ensures
        all_missing_dep_errors(spec_add_deps_fields(m, p, names, j).1, names),
        forall|j2: int|
            0 <= j2 < j && (#[trigger] spec_field_dep(p.fields[j2].typ) matches Some(t)
                && !names.contains(t)) ==> spec_add_deps_fields(m, p, names, j).1.len() > 0,
    decreases j,
{
    if j > 0 {
        lemma_add_deps_fields_errors(m, p, names, j - 1);
        let (m1, es1) = spec_add_deps_fields(m, p, names, j - 1);
        let es = spec_add_deps_fields(m, p, names, j).1;
        match spec_field_dep(p.fields[j - 1].typ) {
            Some(t) => {
                if !names.contains(t) {
                    assert forall|q: int| 0 <= q < es.len() implies exists|t2: Seq<char>|
                        #[trigger] es[q] == spec_missing_dep_error(t2) && !names.contains(
                            t2,
                        ) by {
                        if q < es1.len() {
                            assert(es[q] == es1[q]);
                        } else {
                            assert(es[q] == spec_missing_dep_error(t));
                        }
                    }
                } else {
                    assert(es == es1);
                }
            },
            None => {
                assert(es == es1);
            },
        }
    }
}

/// The packet fold fails exactly when some packet holds an unresolvable
/// reference, and every error of a failure names a missing dependency.
pub proof fn lemma_add_deps_packets_errors(
    m: GraphModel,
    ps: Seq<PacketView>,
    names: Seq<Seq<char>>,
    k: int,
)
    requires
        0 <= k <= ps.len(),
    ensures
        spec_add_deps_packets(m, ps, names, k).1 matches Some(es) ==> es.len() > 0
            && all_missing_dep_errors(es, names),
        (exists|i: int, j: int|
            0 <= i < k && 0 <= j < ps[i].fields.len() && (#[trigger] spec_field_dep(
                ps[i].fields[j].typ,
            ) matches Some(t) && !names.contains(t))) ==> spec_add_deps_packets(
            m,
            ps,
            names,
            k,
        ).1 is Some,
    decreases k,
{
    if k > 0 {
        lemma_add_deps_packets_errors(m, ps, names, k - 1);
        let (m1, failure) = spec_add_deps_packets(m, ps, names, k - 1);
        match failure {
            Some(_) => {},
            None => {
                lemma_add_deps_fields_errors(m1, ps[k - 1], names, ps[k - 1].fields.len() as int);
                if exists|i: int, j: int|
                    0 <= i < k && 0 <= j < ps[i].fields.len() && (#[trigger] spec_field_dep(
                        ps[i].fields[j].typ,
                    ) matches Some(t) && !names.contains(t)) {
                    let (i, j) = choose|i: int, j: int|
                        0 <= i < k && 0 <= j < ps[i].fields.len() && (#[trigger] spec_field_dep(
                            ps[i].fields[j].typ,
                        ) matches Some(t) && !names.contains(t));
                    if i < k - 1 {
                        assert(spec_add_deps_packets(m, ps, names, k - 1).1 is Some);
                        assert(false);
                    } else {
                        assert(spec_add_deps_fields(
                            m1,
                            ps[k - 1],
                            names,
                            ps[k - 1].fields.len() as int,
                        ).1.len() > 0);
                    }
                }
            },
        }
    }
}

/// A missing type reference fails dependency analysis during graph
/// construction, before cycle detection runs: when any packet references
/// a name no packet bears, the analyzer returns the unresolvable-reference
/// errors of the first failing packet, each naming its missing dependency
/// and none describing a cycle.
pub proof fn lemma_missing_reference_fails_construction(ps: Seq<PacketView>)
    requires
        exists|i: int, j: int|
            0 <= i < ps.len() && 0 <= j < ps[i].fields.len() && (#[trigger] spec_field_dep(
                ps[i].fields[j].typ,
            ) matches Some(t) && !spec_packet_names(ps).contains(t)),
    ensures
        spec_dep_analyze(ps) is Errors,
        spec_dep_analyze(ps) matches MorphResultView::Errors(es) ==> es.len() > 0
            && all_missing_dep_errors(es, spec_packet_names(ps)),
{
    let names = spec_packet_names(ps);
    let m0 = spec_dep_nodes_model(ps, ps.len() as int);
    lemma_add_deps_packets_errors(m0, ps, names, ps.len() as int);
}

/// Once a packet fails dependency construction, later packets change
/// nothing.
pub proof fn lemma_dep_build_failure_stable(
    m: GraphModel,
    ps: Seq<PacketView>,
    names: Seq<Seq<char>>,
    k: int,
    end: int,
)
    requires
        0 <= k <= end <= ps.len(),
        spec_add_deps_packets(m, ps, names, k).1 is Some,
    ensures
        spec_add_deps_packets(m, ps, names, end) == spec_add_deps_packets(m, ps, names, k),
    decreases end - k,
{
    if k < end {
        lemma_dep_build_failure_stable(m, ps, names, k + 1, end);
    }
}

impl SemanticAnalyzer for DependencySemanticAnalyzer {
    open spec fn spec_analyze(&self, ps: Seq<PacketView>) -> MorphResultView<()> {
        spec_dep_analyze(ps)
    }

    fn analyze(&self, packets: &Vec<Packet>) -> (r: MorphResult<()>) {
        self.analyze_dependencies(packets)
    }
}

/// One analyzer of the fixed chain.
#[derive(Debug, Clone, Copy, PartialEq, Eq, Structural)]
pub enum AnalyzerKind {
    Name,
    Id,
    Field,
    Dependency,
}

/// What one analyzer of the chain reports.
pub open spec fn spec_analyzer_kind_result(kind: AnalyzerKind, ps: Seq<PacketView>) -> MorphResultView<()> {
    match kind {
        AnalyzerKind::Name => spec_errors_result(spec_name_errors(ps, ps.len() as int)),
        AnalyzerKind::Id => spec_errors_result(spec_id_errors(ps, ps.len() as int)),
        AnalyzerKind::Field => spec_errors_result(spec_field_errors(ps, ps.len() as int)),
        AnalyzerKind::Dependency => spec_dep_analyze(ps),
    }
}

/// The chain from position `i` on: the first analyzer that reports errors
/// stops it, and its errors are the result.
pub open spec fn spec_composite_from(
    kinds: Seq<AnalyzerKind>,
    i: int,
    ps: Seq<PacketView>,
) -> MorphResultView<()>
    decreases kinds.len() - i,
    when 0 <= i <= kinds.len()
{
    if i >= kinds.len() {
        MorphResultView::Success(())
    } else {
        match spec_analyzer_kind_result(kinds[i], ps) {
            MorphResultView::Errors(es) => MorphResultView::Errors(es),
            MorphResultView::Success(_) => spec_composite_from(kinds, i + 1, ps),
        }
    }
}

/// An ordered chain of analyzers, run until the first that reports errors.
pub struct CompositeSemanticAnalyzer {
    pub analyzers: Vec<AnalyzerKind>,
}

impl CompositeSemanticAnalyzer {
    /// An empty chain.
    pub fn new() -> (r: CompositeSemanticAnalyzer)
        ensures
            r.analyzers@ == Seq::<AnalyzerKind>::empty(),
    {
        let analyzers: Vec<AnalyzerKind> = Vec::new();
        proof {
            assert(analyzers@ =~= Seq::<AnalyzerKind>::empty());
        }
        CompositeSemanticAnalyzer { analyzers }
    }

    /// Appends one analyzer to the chain.
    pub fn add_analyzer(&mut self, analyzer: AnalyzerKind)
        ensures
            final(self).analyzers@ == old(self).analyzers@.push(analyzer),
    {
        self.analyzers.push(analyzer);
    }
}

impl SemanticAnalyzer for CompositeSemanticAnalyzer {
    open spec fn spec_analyze(&self, ps: Seq<PacketView>) -> MorphResultView<()> {
        spec_composite_from(self.analyzers@, 0, ps)
    }

    fn analyze(&self, packets: &Vec<Packet>) -> (r: MorphResult<()>) {
        let ghost psd = packets.deep_view();
        let ghost kinds = self.analyzers@;
        let n = self.analyzers.len();
        let mut i: usize = 0;
        while i < n
            invariant
                0 <= i <= n,
                n == self.analyzers@.len(),
                kinds == self.analyzers@,
                psd == packets.deep_view(),
                spec_composite_from(kinds, 0, psd) == spec_composite_from(kinds, i as int, psd),
            decreases n - i,
        {
            let step = match &self.analyzers[i] {
                AnalyzerKind::Name => NameSemanticAnalyzer.analyze(packets),
                AnalyzerKind::Id => IdSemanticAnalyzer.analyze(packets),
                AnalyzerKind::Field => FieldSemanticAnalyzer.analyze(packets),
                AnalyzerKind::Dependency => DependencySemanticAnalyzer.analyze(packets),
            };
            match step {
                MorphResult::Errors(errors) => {
                    return MorphResult::Errors(errors);
                },
                _ => {},
            }
            i = i + 1;
        }
        MorphResult::Success(())
    }
}

/// Short-circuiting of the composite: when its first analyzer reports
/// errors, they are the whole result, and no later analyzer contributes.
pub proof fn lemma_composite_short_circuit(kinds: Seq<AnalyzerKind>, ps: Seq<PacketView>)
    requires
        kinds.len() > 0,
        spec_analyzer_kind_result(kinds[0], ps) is Errors,
    ensures
        spec_composite_from(kinds, 0, ps) == spec_analyzer_kind_result(kinds[0], ps),
{
}

/// The id analyzer never flags an automatic id: a packet list of only
/// automatic ids passes it with no errors.
pub proof fn lemma_id_analyzer_ignores_auto(ps: Seq<PacketView>, k: int)
    requires
        0 <= k <= ps.len(),
        forall|i: int| 0 <= i < ps.len() ==> (#[trigger] ps[i]).is_auto,
    ensures
        spec_id_errors(ps, k) == Seq::<MorphErrorView>::empty(),
    decreases k,
{
    if k > 0 {
        lemma_id_analyzer_ignores_auto(ps, k - 1);
        assert(spec_id_errors(ps, k) =~= Seq::<MorphErrorView>::empty());
    }
}

} // verus!
