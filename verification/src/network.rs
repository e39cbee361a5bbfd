//! The road network read from a scene: vehicle nodes keyed by guid, and for
//! each node the vehicle links that refer to it.
use vstd::prelude::*;

use crate::scene::{Attribute, Position, Ref, TopLevelObject};
use crate::strmap::StrMap;

verus! {

/// A node of the road network.
pub struct VehicleNode {
    pub position: Position,
    pub guid: String,
    pub attributes: StrMap<String>,
}

/// A link of the road network: the nodes it joins, by guid.
pub struct VehicleLink {
    pub position: Position,
    pub guid: String,
    pub refs: Vec<String>,
    pub attributes: StrMap<String>,
}

/// What a node is, as a mathematical value.
#[verifier::ext_equal]
pub struct VehicleNodeView {
    pub position: Position,
    pub guid: Seq<char>,
    pub attributes: Map<Seq<char>, Seq<char>>,
}

/// What a link is, as a mathematical value.
#[verifier::ext_equal]
pub struct VehicleLinkView {
    pub position: Position,
    pub guid: Seq<char>,
    pub refs: Seq<Seq<char>>,
    pub attributes: Map<Seq<char>, Seq<char>>,
}

/// The text of each value of a string map.
pub open spec fn str_values(m: Map<Seq<char>, String>) -> Map<Seq<char>, Seq<char>> {
    m.map_values(|s: String| s@)
}

/// The text of each string of a list.
pub open spec fn str_seq(s: Seq<String>) -> Seq<Seq<char>> {
    s.map_values(|x: String| x@)
}

impl View for VehicleNode {
    type V = VehicleNodeView;

    open spec fn view(&self) -> VehicleNodeView {
        VehicleNodeView {
            position: self.position,
            guid: self.guid@,
            attributes: str_values(self.attributes@),
        }
    }
}

impl View for VehicleLink {
    type V = VehicleLinkView;

    open spec fn view(&self) -> VehicleLinkView {
        VehicleLinkView {
            position: self.position,
            guid: self.guid@,
            refs: str_seq(self.refs@),
            attributes: str_values(self.attributes@),
        }
    }
}

impl Clone for VehicleLink {
    /// An equal copy.
    fn clone(&self) -> (r: Self)
        ensures
            r@ == self@,
    {
        let refs = self.refs.clone();
        assert(str_seq(refs@) =~= str_seq(self.refs@));
        VehicleLink {
            position: self.position,
            guid: self.guid.clone(),
            refs,
            attributes: self.attributes.clone(),
        }
    }
}

/// The nodes of a node map, as values.
pub open spec fn nodes_view(m: StrMap<VehicleNode>) -> Map<Seq<char>, VehicleNodeView> {
    m@.map_values(|n: VehicleNode| n@)
}

/// The link lists of a link map, as values.
pub open spec fn links_view(m: StrMap<Vec<VehicleLink>>) -> Map<Seq<char>, Seq<VehicleLinkView>> {
    m@.map_values(|v: Vec<VehicleLink>| link_seq(v@))
}

/// A list of links, as values.
pub open spec fn link_seq(v: Seq<VehicleLink>) -> Seq<VehicleLinkView> {
    v.map_values(|l: VehicleLink| l@)
}

/// The link list stored under `g`, or the empty list where there is none.
pub open spec fn links_under(m: StrMap<Vec<VehicleLink>>, g: Seq<char>) -> Seq<VehicleLinkView> {
    if m@.contains_key(g) {
        link_seq(m@[g]@)
    } else {
        Seq::empty()
    }
}

// ---------------------------------------------------------------------------
// What the network of a list of scene objects is.
// ---------------------------------------------------------------------------

/// Whether an object is a vehicle node.
pub open spec fn is_node_object(o: TopLevelObject) -> bool {
    o.class@ == "vehiclenode"@
}

/// Whether an object is a vehicle link.
pub open spec fn is_link_object(o: TopLevelObject) -> bool {
    o.class@ == "vehiclelink"@
}

/// The map built from an attribute list: each name to its value, a later
/// entry replacing an earlier one with the same name.
pub open spec fn attribute_fold(s: Seq<Attribute>) -> Map<Seq<char>, Seq<char>>
    decreases s.len(),
{
    if s.len() == 0 {
        Map::empty()
    } else {
        attribute_fold(s.drop_last()).insert(s.last().name@, s.last().value@)
    }
}

/// The attributes of an object; none where the list or the whole
/// attribute element is absent.
pub open spec fn attributes_of(o: TopLevelObject) -> Map<Seq<char>, Seq<char>> {
    match o.attributes {
        Some(a) => match a.attribute {
            Some(v) => attribute_fold(v@),
            None => Map::empty(),
        },
        None => Map::empty(),
    }
}

/// The attribute entries of an object, in order; none where the list or
/// the whole attribute element is absent.
pub open spec fn attribute_list(o: TopLevelObject) -> Seq<Attribute> {
    match o.attributes {
        Some(a) => match a.attribute {
            Some(v) => v@,
            None => Seq::empty(),
        },
        None => Seq::empty(),
    }
}

/// `m` holds what the attribute entries of `o` say: each name of the list
/// maps to the value of the last entry with that name, and no other name is
/// a key (so `m` is empty where the list is absent or empty).
pub open spec fn carries_attributes(m: Map<Seq<char>, Seq<char>>, o: TopLevelObject) -> bool {
    let s = attribute_list(o);
    &&& forall|name: Seq<char>|
        #[trigger] m.contains_key(name) ==> exists|k: int| 0 <= k < s.len() && (#[trigger] s[k]).name@ == name
    &&& forall|k: int|
        0 <= k < s.len() && (forall|k2: int| k < k2 < s.len() ==> (#[trigger] s[k2]).name@ != s[k].name@)
            ==> m.contains_key((#[trigger] s[k]).name@) && m[s[k].name@] == s[k].value@
}

/// The guids that an object refers to, in order.
pub open spec fn ref_guids(o: TopLevelObject) -> Seq<Seq<char>> {
    match o.references {
        Some(r) => r.reference@.map_values(|x: Ref| x.guid@),
        None => Seq::empty(),
    }
}

/// The node that a node object describes.
pub open spec fn node_of(o: TopLevelObject) -> VehicleNodeView {
    VehicleNodeView {
        position: o.transform.node.position,
        guid: o.guid@,
        attributes: attributes_of(o),
    }
}

/// The link that a link object describes.
pub open spec fn link_of(o: TopLevelObject) -> VehicleLinkView {
    VehicleLinkView {
        position: o.transform.node.position,
        guid: o.guid@,
        refs: ref_guids(o),
        attributes: attributes_of(o),
    }
}

/// The node map of a list of objects: each node object under its guid, a
/// later object replacing an earlier one with the same guid.
pub open spec fn node_map(objs: Seq<TopLevelObject>) -> Map<Seq<char>, VehicleNodeView>
    decreases objs.len(),
{
    if objs.len() == 0 {
        Map::empty()
    } else {
        let m = node_map(objs.drop_last());
        let o = objs.last();
        if is_node_object(o) {
            m.insert(o.guid@, node_of(o))
        } else {
            m
        }
    }
}

/// How many times `g` occurs in `s`.
pub open spec fn count_in(s: Seq<Seq<char>>, g: Seq<char>) -> nat
    decreases s.len(),
{
    if s.len() == 0 {
        0
    } else {
        count_in(s.drop_last(), g) + if s.last() == g {
            1nat
        } else {
            0nat
        }
    }
}

/// How many node objects carry the guid `g`.
pub open spec fn node_count(objs: Seq<TopLevelObject>, g: Seq<char>) -> nat
    decreases objs.len(),
{
    if objs.len() == 0 {
        0
    } else {
        node_count(objs.drop_last(), g) + if is_node_object(objs.last()) && objs.last().guid@
            == g {
            1nat
        } else {
            0nat
        }
    }
}

/// The links that refer to `g`, in the order of the objects; a link that
/// names `g` several times is listed that many times.
pub open spec fn links_referencing(objs: Seq<TopLevelObject>, g: Seq<char>) -> Seq<
    VehicleLinkView,
>
    decreases objs.len(),
{
    if objs.len() == 0 {
        Seq::empty()
    } else {
        let prev = links_referencing(objs.drop_last(), g);
        let o = objs.last();
        if is_link_object(o) {
            prev + Seq::new(count_in(ref_guids(o), g), |_i: int| link_of(o))
        } else {
            prev
        }
    }
}

/// The link map of a list of objects: every node guid, with the links that
/// refer to it.  A guid that more than one node object carries gets an
/// empty list.
pub open spec fn link_map(objs: Seq<TopLevelObject>) -> Map<Seq<char>, Seq<VehicleLinkView>> {
    Map::new(
        |g: Seq<char>| node_count(objs, g) > 0,
        |g: Seq<char>|
            if node_count(objs, g) == 1 {
                links_referencing(objs, g)
            } else {
                Seq::empty()
            },
    )
}

/// Every link object names the guids it refers to.
pub open spec fn links_have_references(objs: Seq<TopLevelObject>) -> bool {
    forall|i: int| 0 <= i < objs.len() && is_link_object(#[trigger] objs[i]) ==> objs[i].references is Some
}

// ---------------------------------------------------------------------------
// Building the maps.
// ---------------------------------------------------------------------------

/// The attribute map of an object.
pub fn attribute_map(object: &TopLevelObject) -> (m: StrMap<String>)
    ensures
        str_values(m@) == attributes_of(*object),
{
    let mut m = StrMap::new();
    assert(str_values(m@) =~= Map::<Seq<char>, Seq<char>>::empty());
    match &object.attributes {
        Some(attrs) => match &attrs.attribute {
            Some(list) => {
                let n = list.len();
                for i in 0..n
                    invariant
                        n == list@.len(),
                        str_values(m@) == attribute_fold(list@.take(i as int)),
                {
                    let a = &list[i];
                    let ghost before = m@;
                    m.insert(a.name.clone(), a.value.clone());
                    assert(list@.take(i + 1).drop_last() =~= list@.take(i as int));
                    assert(str_values(m@) =~= attribute_fold(list@.take(i + 1)));
                }
                assert(list@.take(n as int) =~= list@);
            },
            None => {},
        },
        None => {},
    }
    m
}

/// The node that a node object describes.
fn node_from(object: &TopLevelObject) -> (n: VehicleNode)
    ensures
        n@ == node_of(*object),
{
    VehicleNode {
        position: object.transform.node.position,
        guid: object.guid.clone(),
        attributes: attribute_map(object),
    }
}

/// The guids a link object refers to.
fn reference_guids(object: &TopLevelObject) -> (v: Vec<String>)
    ensures
        str_seq(v@) == ref_guids(*object),
{
    let mut v: Vec<String> = Vec::new();
    match &object.references {
        Some(r) => {
            let n = r.reference.len();
            for j in 0..n
                invariant
                    n == r.reference@.len(),
                    object.references == Some(*r),
                    str_seq(v@) == ref_guids(*object).take(j as int),
            {
                let ghost prev = v@;
                let g = r.reference[j].guid.clone();
                v.push(g);
                assert(v@ =~= prev.push(g));
                assert(str_seq(v@) =~= str_seq(prev).push(g@));
                assert(ref_guids(*object) == r.reference@.map_values(|x: Ref| x.guid@));
                assert(ref_guids(*object).take(j + 1) =~= ref_guids(*object).take(j as int).push(
                    r.reference@[j as int].guid@,
                ));
            }
            assert(ref_guids(*object).take(n as int) =~= ref_guids(*object));
        },
        None => {
            assert(str_seq(v@) =~= ref_guids(*object));
        },
    }
    v
}

/// Takes from the scene objects every vehicle node, keyed by its guid.
pub fn guid_to_node(objects: Vec<TopLevelObject>) -> (map: StrMap<VehicleNode>)
    ensures
        nodes_view(map) == node_map(objects@),
{
    let node_class = "vehiclenode".to_owned();
    let mut map: StrMap<VehicleNode> = StrMap::new();
    assert(nodes_view(map) =~= node_map(objects@.take(0)));
    let n = objects.len();
    for i in 0..n
        invariant
            n == objects@.len(),
            node_class@ == "vehiclenode"@,
            nodes_view(map) == node_map(objects@.take(i as int)),
    {
        let object = &objects[i];
        assert(objects@.take(i + 1).drop_last() =~= objects@.take(i as int));
        if object.class == node_class {
            let node = node_from(object);
            map.insert(object.guid.clone(), node);
            assert(nodes_view(map) =~= node_map(objects@.take(i + 1)));
        } else {
            assert(nodes_view(map) =~= node_map(objects@.take(i + 1)));
        }
    }
    assert(objects@.take(n as int) =~= objects@);
    map
}


/// The guids of the node objects, in order.
pub open spec fn node_guids(objs: Seq<TopLevelObject>) -> Seq<Seq<char>>
    decreases objs.len(),
{
    if objs.len() == 0 {
        Seq::empty()
    } else if is_node_object(objs.last()) {
        node_guids(objs.drop_last()).push(objs.last().guid@)
    } else {
        node_guids(objs.drop_last())
    }
}

proof fn lemma_node_count_is_count(objs: Seq<TopLevelObject>, g: Seq<char>)
    ensures
        node_count(objs, g) == count_in(node_guids(objs), g),
    decreases objs.len(),
{
    if objs.len() > 0 {
        lemma_node_count_is_count(objs.drop_last(), g);
        if is_node_object(objs.last()) {
            assert(node_guids(objs).drop_last() =~= node_guids(objs.drop_last()));
        }
    }
}

proof fn lemma_count_step(s: Seq<Seq<char>>, j: int, g: Seq<char>)
    requires
        0 <= j < s.len(),
    ensures
        count_in(s.take(j + 1), g) == count_in(s.take(j), g) + if s[j] == g {
            1nat
        } else {
            0nat
        },
{
    assert(s.take(j + 1).drop_last() =~= s.take(j));
}

/// Groups the vehicle links of the scene by the node guids they refer to:
/// every vehicle node's guid is a key, with the links that name it.
pub fn node_to_links(objects: Vec<TopLevelObject>) -> (map: StrMap<Vec<VehicleLink>>)
    requires
        links_have_references(objects@),
    ensures
        links_view(map) == link_map(objects@),
{
    let node_class = "vehiclenode".to_owned();
    let link_class = "vehiclelink".to_owned();
    let mut links_by_ref: StrMap<Vec<VehicleLink>> = StrMap::new();
    let mut nodes: Vec<String> = Vec::new();
    let n = objects.len();
    for i in 0..n
        invariant
            n == objects@.len(),
            node_class@ == "vehiclenode"@,
            link_class@ == "vehiclelink"@,
            links_have_references(objects@),
            forall|g: Seq<char>|
                #[trigger] links_under(links_by_ref, g) == links_referencing(
                    objects@.take(i as int),
                    g,
                ),
            str_seq(nodes@) == node_guids(objects@.take(i as int)),
    {
        let object = &objects[i];
        let ghost objs_i = objects@.take(i as int);
        let ghost objs_next = objects@.take(i + 1);
        assert(objs_next.drop_last() =~= objs_i);
        assert(objs_next.last() == *object);
        if object.class == link_class {
            assert(object.references is Some);
            let refs = reference_guids(object);
            let link = VehicleLink {
                position: object.transform.node.position,
                guid: object.guid.clone(),
                refs,
                attributes: attribute_map(object),
            };
            assert(link@ == link_of(*object));
            let ghost lv = link@;
            let m = link.refs.len();
            for j in 0..m
                invariant
                    m == link.refs@.len(),
                    link@ == lv,
                    lv.refs == str_seq(link.refs@),
                    forall|g: Seq<char>|
                        #[trigger] links_under(links_by_ref, g) == links_referencing(objs_i, g)
                            + Seq::new(count_in(lv.refs.take(j as int), g), |_k: int| lv),
            {
                let ghost before = links_by_ref;
                let r = link.refs[j].clone();
                let c = link.clone();
                links_by_ref.push_to(r, c);
                assert forall|g: Seq<char>|
                    #[trigger] links_under(links_by_ref, g) == links_referencing(objs_i, g)
                        + Seq::new(count_in(lv.refs.take(j + 1), g), |_k: int| lv) by {
                    lemma_count_step(lv.refs, j as int, g);
                    assert(links_under(before, g) == links_referencing(objs_i, g) + Seq::new(
                        count_in(lv.refs.take(j as int), g),
                        |_k: int| lv,
                    ));
                    if g == lv.refs[j as int] {
                        assert(links_under(links_by_ref, g) =~= links_under(before, g).push(lv));
                        assert(Seq::new(count_in(lv.refs.take(j + 1), g), |_k: int| lv) =~= Seq::new(
                            count_in(lv.refs.take(j as int), g),
                            |_k: int| lv,
                        ).push(lv));
                        assert(links_under(links_by_ref, g) =~= links_referencing(objs_i, g)
                            + Seq::new(count_in(lv.refs.take(j + 1), g), |_k: int| lv));
                    } else {
                        assert(links_under(links_by_ref, g) == links_under(before, g));
                    }
                }
            }
            assert(lv.refs.take(m as int) =~= lv.refs);
            assert forall|g: Seq<char>|
                #[trigger] links_under(links_by_ref, g) == links_referencing(objs_next, g) by {
                assert(is_link_object(*object));
            }
            assert(node_guids(objs_next) == node_guids(objs_i)) by {
                reveal_strlit("vehiclelink");
                reveal_strlit("vehiclenode");
                assert("vehiclelink"@[7] != "vehiclenode"@[7]);
                assert(!is_node_object(*object));
            }
        } else if object.class == node_class {
            nodes.push(object.guid.clone());
            assert(str_seq(nodes@) =~= node_guids(objs_next));
            assert forall|g: Seq<char>|
                #[trigger] links_under(links_by_ref, g) == links_referencing(objs_next, g) by {
                assert(!is_link_object(*object));
            }
        } else {
            assert forall|g: Seq<char>|
                #[trigger] links_under(links_by_ref, g) == links_referencing(objs_next, g) by {
                assert(!is_link_object(*object));
            }
            assert(node_guids(objs_next) == node_guids(objs_i));
        }
    }
    assert(objects@.take(n as int) =~= objects@);
    let ghost all = objects@;
    let ghost order = node_guids(all);
    let mut map: StrMap<Vec<VehicleLink>> = StrMap::new();
    let k_end = nodes.len();
    for k in 0..k_end
        invariant
            k_end == nodes@.len(),
            str_seq(nodes@) == order,
            order == node_guids(all),
            forall|g: Seq<char>|
                #[trigger] links_under(links_by_ref, g) == if count_in(order.take(k as int), g) > 0 {
                    Seq::empty()
                } else {
                    links_referencing(all, g)
                },
            forall|g: Seq<char>| #[trigger]
                map@.contains_key(g) <==> count_in(order.take(k as int), g) > 0,
            forall|g: Seq<char>|
                #[trigger] map@.contains_key(g) ==> link_seq(map@[g]@) == if count_in(
                    order.take(k as int),
                    g,
                ) == 1 {
                    links_referencing(all, g)
                } else {
                    Seq::empty()
                },
    {
        let guid = &nodes[k];
        let ghost g0 = guid@;
        assert(order[k as int] == g0);
        let ghost before = links_by_ref;
        let ghost map_before = map;
        let link_vec = match links_by_ref.remove(guid.as_str()) {
            Some(v) => v,
            None => Vec::new(),
        };
        assert(link_seq(link_vec@) == links_under(before, g0));
        map.insert(guid.clone(), link_vec);
        assert forall|g: Seq<char>|
            #[trigger] links_under(links_by_ref, g) == if count_in(order.take(k + 1), g) > 0 {
                Seq::<VehicleLinkView>::empty()
            } else {
                links_referencing(all, g)
            } by {
            lemma_count_step(order, k as int, g);
            if g != g0 {
                assert(links_under(links_by_ref, g) == links_under(before, g));
            }
        }
        assert forall|g: Seq<char>| #[trigger]
            map@.contains_key(g) <==> count_in(order.take(k + 1), g) > 0 by {
            lemma_count_step(order, k as int, g);
        }
        assert forall|g: Seq<char>|
            #[trigger] map@.contains_key(g) implies link_seq(map@[g]@) == if count_in(
                order.take(k + 1),
                g,
            ) == 1 {
                links_referencing(all, g)
            } else {
                Seq::<VehicleLinkView>::empty()
            } by {
            lemma_count_step(order, k as int, g);
            if g != g0 {
                assert(map_before@.contains_key(g));
            }
        }
    }
    assert(order.take(k_end as int) =~= order) by {
        assert(order.len() == k_end);
    }
    assert(links_view(map) =~= link_map(all)) by {
        assert forall|g: Seq<char>| #[trigger] map@.contains_key(g) <==> node_count(all, g) > 0 by {
            lemma_node_count_is_count(all, g);
        }
        assert forall|g: Seq<char>| #[trigger] map@.contains_key(g) implies links_view(map)[g]
            == link_map(all)[g] by {
            lemma_node_count_is_count(all, g);
        }
    }
    map
}

// ---------------------------------------------------------------------------
// Laws of the two maps.
// ---------------------------------------------------------------------------

/// Every node of the node map is stored under its own guid.
pub proof fn lemma_nodes_keyed_by_guid(objs: Seq<TopLevelObject>)
    ensures
        forall|g: Seq<char>| #[trigger] node_map(objs).contains_key(g) ==> node_map(objs)[g].guid == g,
    decreases objs.len(),
{
    if objs.len() > 0 {
        let init = objs.drop_last();
        lemma_nodes_keyed_by_guid(init);
        assert forall|g: Seq<char>| #[trigger] node_map(objs).contains_key(g) implies node_map(objs)[g].guid == g by {
            if !(is_node_object(objs.last()) && objs.last().guid@ == g) {
                assert(node_map(init).contains_key(g));
            }
        }
    }
}

/// A guid is a key of the node map exactly when some node object carries it.
pub proof fn lemma_node_keys(objs: Seq<TopLevelObject>)
    ensures
        forall|g: Seq<char>| #[trigger] node_map(objs).contains_key(g) <==> node_count(objs, g) > 0,
    decreases objs.len(),
{
    if objs.len() > 0 {
        let init = objs.drop_last();
        lemma_node_keys(init);
        assert forall|g: Seq<char>| #[trigger] node_map(objs).contains_key(g) <==> node_count(objs, g) > 0 by {
            assert(node_map(init).contains_key(g) <==> node_count(init, g) > 0);
        }
    }
}

/// The node map and the link map of the same objects have the same keys.
pub proof fn lemma_nodes_and_links_share_keys(objs: Seq<TopLevelObject>)
    ensures
        node_map(objs).dom() == link_map(objs).dom(),
{
    lemma_node_keys(objs);
    assert(node_map(objs).dom() =~= link_map(objs).dom());
}

pub(crate) proof fn lemma_count_contains(s: Seq<Seq<char>>, g: Seq<char>)
    requires
        count_in(s, g) > 0,
    ensures
        s.contains(g),
    decreases s.len(),
{
    if s.last() == g {
        assert(s[s.len() - 1] == g);
    } else {
        lemma_count_contains(s.drop_last(), g);
        let k = choose|k: int| 0 <= k < s.drop_last().len() && s.drop_last()[k] == g;
        assert(s[k] == g);
    }
}

proof fn lemma_referencing_names(objs: Seq<TopLevelObject>, g: Seq<char>)
    ensures
        forall|k: int|
            0 <= k < links_referencing(objs, g).len() ==> (#[trigger] links_referencing(objs, g)[k]).refs.contains(g),
    decreases objs.len(),
{
    if objs.len() > 0 {
        lemma_referencing_names(objs.drop_last(), g);
        let o = objs.last();
        let prev = links_referencing(objs.drop_last(), g);
        if is_link_object(o) && count_in(ref_guids(o), g) > 0 {
            lemma_count_contains(ref_guids(o), g);
        }
        assert forall|k: int|
            0 <= k < links_referencing(objs, g).len() implies (#[trigger] links_referencing(objs, g)[k]).refs.contains(g) by {
            if k < prev.len() {
                assert(links_referencing(objs, g)[k] == prev[k]);
            }
        }
    }
}

/// Every link listed under a node in the link map names that node.
pub proof fn lemma_listed_links_name_their_node(objs: Seq<TopLevelObject>)
    ensures
        forall|g: Seq<char>, k: int|
            #[trigger] link_map(objs).contains_key(g) && 0 <= k < link_map(objs)[g].len()
                ==> (#[trigger] link_map(objs)[g][k]).refs.contains(g),
{
    assert forall|g: Seq<char>, k: int|
        #[trigger] link_map(objs).contains_key(g) && 0 <= k < link_map(objs)[g].len()
            implies (#[trigger] link_map(objs)[g][k]).refs.contains(g) by {
        lemma_referencing_names(objs, g);
    }
}

/// A name is a key of the map built from an attribute list only where some
/// entry of the list carries it.
proof fn lemma_fold_key(s: Seq<Attribute>, name: Seq<char>) -> (k: int)
    requires
        attribute_fold(s).contains_key(name),
    ensures
        0 <= k < s.len(),
        s[k].name@ == name,
    decreases s.len(),
{
    let n = s.len() - 1;
    if s[n].name@ == name {
        n
    } else {
        let init = s.drop_last();
        let k = lemma_fold_key(init, name);
        assert(init[k] == s[k]);
        k
    }
}

/// The last entry with a given name decides that name's value in the map
/// built from an attribute list.
proof fn lemma_fold_last(s: Seq<Attribute>, k: int)
    requires
        0 <= k < s.len(),
        forall|k2: int| k < k2 < s.len() ==> (#[trigger] s[k2]).name@ != s[k].name@,
    ensures
        attribute_fold(s).contains_key(s[k].name@),
        attribute_fold(s)[s[k].name@] == s[k].value@,
    decreases s.len(),
{
    let n = s.len() - 1;
    if k < n {
        let init = s.drop_last();
        assert(s[n].name@ != s[k].name@);
        assert(init[k] == s[k]);
        assert forall|k2: int| k < k2 < init.len() implies (#[trigger] init[k2]).name@ != init[k].name@ by {
            assert(init[k2] == s[k2]);
        }
        lemma_fold_last(init, k);
    }
}

/// The attributes given to an object's node or link are those its list says.
proof fn lemma_attributes_carried(o: TopLevelObject)
    ensures
        carries_attributes(attributes_of(o), o),
{
    let s = attribute_list(o);
    let m = attributes_of(o);
    assert(m == attribute_fold(s));
    assert forall|name: Seq<char>| #[trigger] m.contains_key(name) implies exists|k: int|
        0 <= k < s.len() && (#[trigger] s[k]).name@ == name by {
        let k = lemma_fold_key(s, name);
    }
    assert forall|k: int|
        0 <= k < s.len() && (forall|k2: int| k < k2 < s.len() ==> (#[trigger] s[k2]).name@ != s[k].name@)
            implies m.contains_key((#[trigger] s[k]).name@) && m[s[k].name@] == s[k].value@ by {
        lemma_fold_last(s, k);
    }
}

/// The node stored under the guid of the last node object that carries it
/// is that object's node: its guid, the position of its node frame, and the
/// attributes its list gives.
pub proof fn lemma_last_node_object_stored(objs: Seq<TopLevelObject>, i: int)
    requires
        0 <= i < objs.len(),
        objs[i].class@ == "vehiclenode"@,
        forall|j: int|
            i < j < objs.len() && (#[trigger] objs[j]).class@ == "vehiclenode"@ ==> objs[j].guid@ != objs[i].guid@,
    ensures
        node_map(objs).contains_key(objs[i].guid@),
        node_map(objs)[objs[i].guid@].guid == objs[i].guid@,
        node_map(objs)[objs[i].guid@].position == objs[i].transform.node.position,
        carries_attributes(node_map(objs)[objs[i].guid@].attributes, objs[i]),
    decreases objs.len(),
{
    let init = objs.drop_last();
    let n = objs.len() - 1;
    if i == n {
        lemma_attributes_carried(objs[i]);
    } else {
        assert(init[i] == objs[i]);
        assert forall|j: int|
            i < j < init.len() && (#[trigger] init[j]).class@ == "vehiclenode"@ implies init[j].guid@ != init[i].guid@ by {
            assert(init[j] == objs[j]);
        }
        lemma_last_node_object_stored(init, i);
        assert(objs[n] == objs.last());
        if objs[n].class@ == "vehiclenode"@ {
            assert(objs[n].guid@ != objs[i].guid@);
        }
    }
}

/// Every link listed under a node comes from a vehicle-link object that
/// names the node, and carries that object's guid, node-frame position,
/// references and attributes.
pub proof fn lemma_listed_links_come_from_link_objects(objs: Seq<TopLevelObject>, g: Seq<char>, k: int)
    requires
        link_map(objs).contains_key(g),
        0 <= k < link_map(objs)[g].len(),
    ensures
        exists|i: int|
            #![trigger objs[i]]
            0 <= i < objs.len() && objs[i].class@ == "vehiclelink"@ && ref_guids(objs[i]).contains(g)
                && link_map(objs)[g][k].guid == objs[i].guid@ && link_map(objs)[g][k].position
                == objs[i].transform.node.position && link_map(objs)[g][k].refs == ref_guids(objs[i])
                && carries_attributes(link_map(objs)[g][k].attributes, objs[i]),
{
    assert(node_count(objs, g) == 1);
    assert(link_map(objs)[g] == links_referencing(objs, g));
    let m = crate::route::lemma_referencing_source(objs, g, k);
    lemma_attributes_carried(objs[m]);
}

/// Every vehicle-link object, whatever its attributes, is listed under each
/// guid it names that exactly one node object carries, with its guid,
/// node-frame position, references and attributes.
pub proof fn lemma_link_objects_are_listed(objs: Seq<TopLevelObject>, m: int, g: Seq<char>)
    requires
        0 <= m < objs.len(),
        objs[m].class@ == "vehiclelink"@,
        ref_guids(objs[m]).contains(g),
        node_count(objs, g) == 1,
    ensures
        link_map(objs).contains_key(g),
        exists|k: int|
            #![trigger link_map(objs)[g][k]]
            0 <= k < link_map(objs)[g].len() && link_map(objs)[g][k].guid == objs[m].guid@
                && link_map(objs)[g][k].position == objs[m].transform.node.position
                && link_map(objs)[g][k].refs == ref_guids(objs[m]) && carries_attributes(
                link_map(objs)[g][k].attributes,
                objs[m],
            ),
{
    let k = crate::route::lemma_referencing_place(objs, g, m);
    lemma_attributes_carried(objs[m]);
    assert(link_map(objs)[g] == links_referencing(objs, g));
    assert(link_map(objs)[g][k] == link_of(objs[m]));
}

/// Every key of the node map is the guid of a vehicle-node object, and
/// the node stored there is that of the last such object.
pub proof fn lemma_node_keys_come_from_node_objects(objs: Seq<TopLevelObject>, g: Seq<char>) -> (i: int)
    requires
        node_map(objs).contains_key(g),
    ensures
        0 <= i < objs.len(),
        objs[i].class@ == "vehiclenode"@,
        objs[i].guid@ == g,
        forall|j: int| i < j < objs.len() && (#[trigger] objs[j]).class@ == "vehiclenode"@ ==> objs[j].guid@ != g,
    decreases objs.len(),
{
    let n = objs.len() - 1;
    let init = objs.drop_last();
    assert(objs[n] == objs.last());
    if objs[n].class@ == "vehiclenode"@ && objs[n].guid@ == g {
        n
    } else {
        assert(node_map(init).contains_key(g));
        let i = lemma_node_keys_come_from_node_objects(init, g);
        assert(init[i] == objs[i]);
        assert forall|j: int| i < j < objs.len() && (#[trigger] objs[j]).class@ == "vehiclenode"@ implies objs[j].guid@ != g by {
            if j < n {
                assert(init[j] == objs[j]);
            }
        }
        i
    }
}

} // verus!
