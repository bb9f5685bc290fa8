//! Brush faces of a parsed map: which faces are drawn, their vertex text and material,
//! and the triangle fans that cover them.
use vstd::prelude::*;
use crate::text::chars_of;
use crate::vmf::{
    Node, VmfEntry, VmfError, Vmf, all_values, leaf_text, one_value, parse_text, vertex_text,
};

verus! {

/// What `str::to_uppercase` makes of a text.
pub uninterp spec fn upper_of(s: Seq<char>) -> Seq<char>;

/// Relies on `str::to_uppercase`: the result depends on the characters alone.
#[verifier::external_body]
fn uppercase(s: &str) -> (r: String)
    ensures
        r@ == upper_of(s@),
{
    s.to_uppercase()
}

/// Materials of tool brushes that are never drawn.
pub open spec fn is_tool_material(m: Seq<char>) -> bool {
    m == "TOOLS/TOOLSNODRAW"@ || m == "TOOLS/TOOLSPLAYERCLIP"@ || m == "TOOLS/TOOLSCLIP"@ || m
        == "TOOLS/TOOLSTRIGGER"@ || m == "TOOLS/TOOLSHINT"@ || m == "TOOLS/TOOLSSKIP"@
}

/// Sky materials, drawn in a flat sky color.
pub open spec fn is_sky_material(m: Seq<char>) -> bool {
    m == "TOOLS/TOOLSSKYBOX"@ || m == "TOOLS/TOOLSSKYBOX2D"@
}

/// A face is drawn when it has a readable material that is no tool material.
pub open spec fn is_visible(side: Node) -> bool {
    match one_value(side, "material"@) {
        Ok(m) => match leaf_text(m) {
            Ok(t) => !is_tool_material(upper_of(t)),
            Err(_) => false,
        },
        Err(_) => false,
    }
}

/// An entity whose brushes belong to the detail geometry.
pub open spec fn is_detail(e: Node) -> bool {
    match one_value(e, "classname"@) {
        Ok(c) => match leaf_text(c) {
            Ok(t) => t == "func_detail"@,
            Err(_) => false,
        },
        Err(_) => false,
    }
}

/// The solids of the detail entities among `es`, in order.
pub open spec fn detail_solids(es: Seq<Node>) -> Result<Seq<Node>, VmfError>
    decreases es.len(),
{
    if es.len() == 0 {
        Ok(Seq::empty())
    } else {
        match detail_solids(es.drop_last()) {
            Err(e) => Err(e),
            Ok(acc) => if is_detail(es.last()) {
                match all_values(es.last(), "solid"@) {
                    Ok(s) => Ok(acc + s),
                    Err(e) => Err(e),
                }
            } else {
                Ok(acc)
            },
        }
    }
}

/// The solids to draw: those of the world, then those of detail entities.
pub open spec fn map_solids(root: Node) -> Result<Seq<Node>, VmfError> {
    match one_value(root, "world"@) {
        Err(e) => Err(e),
        Ok(w) => match all_values(w, "solid"@) {
            Err(e) => Err(e),
            Ok(ws) => match all_values(root, "entity"@) {
                Err(e) => Err(e),
                Ok(es) => match detail_solids(es) {
                    Err(e) => Err(e),
                    Ok(ds) => Ok(ws + ds),
                },
            },
        },
    }
}

/// The visible sides among `sides`, in order.
pub open spec fn keep_visible(sides: Seq<Node>) -> Seq<Node>
    decreases sides.len(),
{
    if sides.len() == 0 {
        Seq::empty()
    } else if is_visible(sides.last()) {
        keep_visible(sides.drop_last()).push(sides.last())
    } else {
        keep_visible(sides.drop_last())
    }
}

/// The visible sides of `solids`, solid by solid.
pub open spec fn visible_sides(solids: Seq<Node>) -> Result<Seq<Node>, VmfError>
    decreases solids.len(),
{
    if solids.len() == 0 {
        Ok(Seq::empty())
    } else {
        match visible_sides(solids.drop_last()) {
            Err(e) => Err(e),
            Ok(acc) => match all_values(solids.last(), "side"@) {
                Ok(s) => Ok(acc + keep_visible(s)),
                Err(e) => Err(e),
            },
        }
    }
}

/// A face to draw: its material, upper-cased, and the coordinate fields of its vertices.
pub struct FaceModel {
    pub material: Seq<char>,
    pub vertices: Seq<Seq<Seq<char>>>,
}

/// The coordinate fields of each vertex leaf.
pub open spec fn vertex_texts(vs: Seq<Node>) -> Result<Seq<Seq<Seq<char>>>, VmfError>
    decreases vs.len(),
{
    if vs.len() == 0 {
        Ok(Seq::empty())
    } else {
        match vertex_texts(vs.drop_last()) {
            Err(e) => Err(e),
            Ok(acc) => match vertex_text(vs.last()) {
                Ok(v) => Ok(acc.push(v)),
                Err(e) => Err(e),
            },
        }
    }
}

/// The face that a side describes by its explicit vertex list.
pub open spec fn face_of(side: Node) -> Result<FaceModel, VmfError> {
    match one_value(side, "vertices_plus"@) {
        Err(e) => Err(e),
        Ok(vp) => match all_values(vp, "v"@) {
            Err(e) => Err(e),
            Ok(vs) => match vertex_texts(vs) {
                Err(e) => Err(e),
                Ok(verts) => if verts.len() < 3 {
                    Err(VmfError::TooFewVertices)
                } else {
                    match one_value(side, "material"@) {
                        Err(e) => Err(e),
                        Ok(m) => match leaf_text(m) {
                            Err(e) => Err(e),
                            Ok(t) => Ok(FaceModel { material: upper_of(t), vertices: verts }),
                        },
                    }
                },
            },
        },
    }
}

pub open spec fn faces_of(sides: Seq<Node>) -> Result<Seq<FaceModel>, VmfError>
    decreases sides.len(),
{
    if sides.len() == 0 {
        Ok(Seq::empty())
    } else {
        match faces_of(sides.drop_last()) {
            Err(e) => Err(e),
            Ok(acc) => match face_of(sides.last()) {
                Ok(f) => Ok(acc.push(f)),
                Err(e) => Err(e),
            },
        }
    }
}

/// The faces to draw of a parsed map.
pub open spec fn map_faces(root: Node) -> Result<Seq<FaceModel>, VmfError> {
    match map_solids(root) {
        Err(e) => Err(e),
        Ok(solids) => match visible_sides(solids) {
            Err(e) => Err(e),
            Ok(sides) => faces_of(sides),
        },
    }
}

/// A face to draw.
pub struct Face {
    /// The material name, upper-cased.
    pub material: String,
    /// Each vertex as its three coordinate fields.
    pub vertices: Vec<Vec<String>>,
}

impl View for Face {
    type V = FaceModel;

    open spec fn view(&self) -> FaceModel {
        FaceModel {
            material: self.material@,
            vertices: self.vertices@.map_values(|v: Vec<String>| v@.map_values(|s: String| s@)),
        }
    }
}

pub open spec fn refs_model(v: Seq<&VmfEntry>) -> Seq<Node> {
    v.map_values(|e: &VmfEntry| e@)
}

pub open spec fn faces_model(v: Seq<Face>) -> Seq<FaceModel> {
    v.map_values(|f: Face| f@)
}

fn same_text(a: &str, b: &str) -> (r: bool)
    ensures
        r == (a@ == b@),
{
    let x = chars_of(a);
    let y = chars_of(b);
    if x.len() != y.len() {
        return false;
    }
    let mut i: usize = 0;
    while i < x.len()
        invariant
            i <= x.len() == y.len(),
            x@ == a@,
            y@ == b@,
            x@.take(i as int) == y@.take(i as int),
        decreases x.len() - i,
    {
        if x[i] != y[i] {
            assert(x@[i as int] != y@[i as int]);
            return false;
        }
        assert(x@.take(i as int + 1) =~= x@.take(i as int).push(x@[i as int]));
        assert(y@.take(i as int + 1) =~= y@.take(i as int).push(y@[i as int]));
        i += 1;
    }
    assert(x@ =~= x@.take(i as int));
    assert(y@ =~= y@.take(i as int));
    true
}

/// Whether an upper-cased material is one of the tool materials that are never drawn.
pub fn is_tool_material_name(m: &str) -> (r: bool)
    ensures
        r == is_tool_material(m@),
{
    same_text(m, "TOOLS/TOOLSNODRAW") || same_text(m, "TOOLS/TOOLSPLAYERCLIP") || same_text(
        m,
        "TOOLS/TOOLSCLIP",
    ) || same_text(m, "TOOLS/TOOLSTRIGGER") || same_text(m, "TOOLS/TOOLSHINT") || same_text(
        m,
        "TOOLS/TOOLSSKIP",
    )
}

/// Whether an upper-cased material is a sky material.
pub fn is_sky_material_name(m: &str) -> (r: bool)
    ensures
        r == is_sky_material(m@),
{
    same_text(m, "TOOLS/TOOLSSKYBOX") || same_text(m, "TOOLS/TOOLSSKYBOX2D")
}

/// Whether a side is drawn: it has a readable material that is no tool material.
pub fn is_side_visible(side: &VmfEntry) -> (r: bool)
    ensures
        r == is_visible(side@),
{
    match side.get_one("material") {
        Err(_) => false,
        Ok(m) => match m.to_str() {
            Err(_) => false,
            Ok(t) => {
                let upper = uppercase(t);
                !is_tool_material_name(upper.as_str())
            },
        },
    }
}

fn is_detail_entity(e: &VmfEntry) -> (r: bool)
    ensures
        r == is_detail(e@),
{
    match e.get_one("classname") {
        Err(_) => false,
        Ok(c) => match c.to_str() {
            Err(_) => false,
            Ok(t) => same_text(t, "func_detail"),
        },
    }
}

/// Appends a reference to each of `items`.
fn append_refs<'a>(out: &mut Vec<&'a VmfEntry>, items: &'a [VmfEntry])
    ensures
        refs_model(final(out)@) == refs_model(old(out)@) + items@.map_values(|e: VmfEntry| e@),
{
    let ghost start = refs_model(out@);
    let ghost im = items@.map_values(|e: VmfEntry| e@);
    let mut i: usize = 0;
    assert(start + im.take(0) =~= start);
    while i < items.len()
        invariant
            i <= items.len() == im.len(),
            im == items@.map_values(|e: VmfEntry| e@),
            refs_model(out@) == start + im.take(i as int),
        decreases items.len() - i,
    {
        let ghost before = out@;
        out.push(&items[i]);
        assert(out@ == before.push(&items@[i as int]));
        assert(refs_model(out@) =~= refs_model(before).push(im[i as int]));
        assert(im.take(i as int + 1) =~= im.take(i as int).push(im[i as int]));
        i += 1;
    }
    assert(im.take(i as int) =~= im);
}

pub proof fn lemma_detail_solids_err(es: Seq<Node>, n: int)
    requires
        0 <= n <= es.len(),
        detail_solids(es.take(n)) is Err,
    ensures
        detail_solids(es) == detail_solids(es.take(n)),
    decreases es.len(),
{
    if es.len() == n {
        assert(es.take(n) =~= es);
    } else {
        assert(es.drop_last().take(n) =~= es.take(n));
        lemma_detail_solids_err(es.drop_last(), n);
    }
}

pub proof fn lemma_visible_sides_err(s: Seq<Node>, n: int)
    requires
        0 <= n <= s.len(),
        visible_sides(s.take(n)) is Err,
    ensures
        visible_sides(s) == visible_sides(s.take(n)),
    decreases s.len(),
{
    if s.len() == n {
        assert(s.take(n) =~= s);
    } else {
        assert(s.drop_last().take(n) =~= s.take(n));
        lemma_visible_sides_err(s.drop_last(), n);
    }
}

pub proof fn lemma_vertex_texts_err(s: Seq<Node>, n: int)
    requires
        0 <= n <= s.len(),
        vertex_texts(s.take(n)) is Err,
    ensures
        vertex_texts(s) == vertex_texts(s.take(n)),
    decreases s.len(),
{
    if s.len() == n {
        assert(s.take(n) =~= s);
    } else {
        assert(s.drop_last().take(n) =~= s.take(n));
        lemma_vertex_texts_err(s.drop_last(), n);
    }
}

pub proof fn lemma_faces_of_err(s: Seq<Node>, n: int)
    requires
        0 <= n <= s.len(),
        faces_of(s.take(n)) is Err,
    ensures
        faces_of(s) == faces_of(s.take(n)),
    decreases s.len(),
{
    if s.len() == n {
        assert(s.take(n) =~= s);
    } else {
        assert(s.drop_last().take(n) =~= s.take(n));
        lemma_faces_of_err(s.drop_last(), n);
    }
}

/// The solids to draw (see `map_solids`).
fn collect_solids(root: &VmfEntry) -> (r: Result<Vec<&VmfEntry>, VmfError>)
    ensures
        r is Ok <==> map_solids(root@) is Ok,
        r is Ok ==> refs_model(r->Ok_0@) == map_solids(root@)->Ok_0,
        r is Err ==> r->Err_0 == map_solids(root@)->Err_0,
{
    let world = root.get_one("world")?;
    let world_solids = world.get_all("solid")?;
    let entities = root.get_all("entity")?;
    let ghost es = entities@.map_values(|e: VmfEntry| e@);
    let mut out: Vec<&VmfEntry> = Vec::new();
    append_refs(&mut out, world_solids);
    let ghost ws = refs_model(out@);
    assert(ws =~= world_solids@.map_values(|e: VmfEntry| e@));
    let mut j: usize = 0;
    assert(es.take(0) =~= Seq::<Node>::empty());
    assert(ws + Seq::<Node>::empty() =~= ws);
    while j < entities.len()
        invariant
            j <= entities.len() == es.len(),
            es == entities@.map_values(|e: VmfEntry| e@),
            detail_solids(es.take(j as int)) is Ok,
            refs_model(out@) == ws + detail_solids(es.take(j as int))->Ok_0,
        decreases entities.len() - j,
    {
        let e = &entities[j];
        assert(es.take(j as int + 1).drop_last() =~= es.take(j as int));
        if is_detail_entity(e) {
            match e.get_all("solid") {
                Err(err) => {
                    proof {
                        lemma_detail_solids_err(es, j as int + 1);
                    }
                    return Err(err);
                },
                Ok(solids) => {
                    append_refs(&mut out, solids);
                    assert(refs_model(out@) =~= ws + detail_solids(es.take(j as int + 1))->Ok_0);
                },
            }
        }
        j += 1;
    }
    assert(es.take(j as int) =~= es);
    Ok(out)
}

/// Keeps the visible sides of each solid (see `visible_sides`).
fn collect_visible_sides<'a>(solids: &Vec<&'a VmfEntry>) -> (r: Result<Vec<&'a VmfEntry>, VmfError>)
    ensures
        r is Ok <==> visible_sides(refs_model(solids@)) is Ok,
        r is Ok ==> refs_model(r->Ok_0@) == visible_sides(refs_model(solids@))->Ok_0,
        r is Err ==> r->Err_0 == visible_sides(refs_model(solids@))->Err_0,
{
    let ghost sm = refs_model(solids@);
    let mut out: Vec<&VmfEntry> = Vec::new();
    let mut i: usize = 0;
    assert(sm.take(0) =~= Seq::<Node>::empty());
    assert(refs_model(out@) =~= Seq::<Node>::empty());
    while i < solids.len()
        invariant
            i <= solids.len() == sm.len(),
            sm == refs_model(solids@),
            visible_sides(sm.take(i as int)) == Ok::<Seq<Node>, VmfError>(refs_model(out@)),
        decreases solids.len() - i,
    {
        assert(sm.take(i as int + 1).drop_last() =~= sm.take(i as int));
        let sides = match solids[i].get_all("side") {
            Err(err) => {
                proof {
                    lemma_visible_sides_err(sm, i as int + 1);
                }
                return Err(err);
            },
            Ok(sides) => sides,
        };
        let ghost before = refs_model(out@);
        let ghost sv = sides@.map_values(|x: VmfEntry| x@);
        let mut k: usize = 0;
        assert(sv.take(0) =~= Seq::<Node>::empty());
        assert(before + keep_visible(sv.take(0)) =~= before);
        while k < sides.len()
            invariant
                k <= sides.len() == sv.len(),
                sv == sides@.map_values(|x: VmfEntry| x@),
                refs_model(out@) == before + keep_visible(sv.take(k as int)),
            decreases sides.len() - k,
        {
            assert(sv.take(k as int + 1).drop_last() =~= sv.take(k as int));
            if is_side_visible(&sides[k]) {
                let ghost prev = out@;
                out.push(&sides[k]);
                assert(out@ == prev.push(&sides@[k as int]));
                assert(refs_model(out@) =~= refs_model(prev).push(sv[k as int]));
                assert(refs_model(out@) =~= before + keep_visible(sv.take(k as int + 1)));
            }
            k += 1;
        }
        assert(sv.take(k as int) =~= sv);
        i += 1;
    }
    assert(sm.take(i as int) =~= sm);
    Ok(out)
}

/// The face that a side describes (see `face_of`).
fn face_from_side(side: &VmfEntry) -> (r: Result<Face, VmfError>)
    ensures
        r is Ok <==> face_of(side@) is Ok,
        r is Ok ==> r->Ok_0@ == face_of(side@)->Ok_0,
        r is Err ==> r->Err_0 == face_of(side@)->Err_0,
{
    let vp = side.get_one("vertices_plus")?;
    let vs = vp.get_all("v")?;
    let ghost vm = vs@.map_values(|x: VmfEntry| x@);
    let mut vertices: Vec<Vec<String>> = Vec::new();
    let mut i: usize = 0;
    assert(vm.take(0) =~= Seq::<Node>::empty());
    assert(vertices@.map_values(|v: Vec<String>| v@.map_values(|s: String| s@)) =~= Seq::<
        Seq<Seq<char>>,
    >::empty());
    while i < vs.len()
        invariant
            i <= vs.len() == vm.len(),
            vm == vs@.map_values(|x: VmfEntry| x@),
            one_value(side@, "vertices_plus"@) is Ok,
            all_values(one_value(side@, "vertices_plus"@)->Ok_0, "v"@) == Ok::<
                Seq<Node>,
                VmfError,
            >(vm),
            vertex_texts(vm.take(i as int)) == Ok::<Seq<Seq<Seq<char>>>, VmfError>(
                vertices@.map_values(|v: Vec<String>| v@.map_values(|s: String| s@)),
            ),
        decreases vs.len() - i,
    {
        assert(vm.take(i as int + 1).drop_last() =~= vm.take(i as int));
        let v = match vs[i].to_vertex() {
            Err(err) => {
                proof {
                    lemma_vertex_texts_err(vm, i as int + 1);
                }
                return Err(err);
            },
            Ok(v) => v,
        };
        let ghost before = vertices@.map_values(|v: Vec<String>| v@.map_values(|s: String| s@));
        assert(v@.map_values(|s: String| s@) =~= vertex_text(vm[i as int])->Ok_0);
        vertices.push(v);
        assert(vertices@.map_values(|v: Vec<String>| v@.map_values(|s: String| s@)) =~= before.push(
            vertex_text(vm[i as int])->Ok_0,
        ));
        i += 1;
    }
    assert(vm.take(i as int) =~= vm);
    if vertices.len() < 3 {
        return Err(VmfError::TooFewVertices);
    }
    let material = uppercase(side.get_one("material")?.to_str()?);
    Ok(Face { material, vertices })
}

/// The faces to draw of a parsed map, in order: the visible faces of the world's solids,
/// then those of the solids of detail entities.
pub fn extract_faces(root: &VmfEntry) -> (r: Result<Vec<Face>, VmfError>)
    ensures
        r is Ok <==> map_faces(root@) is Ok,
        r is Ok ==> faces_model(r->Ok_0@) == map_faces(root@)->Ok_0,
        r is Err ==> r->Err_0 == map_faces(root@)->Err_0,
{
    let solids = collect_solids(root)?;
    let sides = collect_visible_sides(&solids)?;
    let ghost sm = refs_model(sides@);
    let mut faces: Vec<Face> = Vec::new();
    let mut i: usize = 0;
    assert(sm.take(0) =~= Seq::<Node>::empty());
    assert(faces_model(faces@) =~= Seq::<FaceModel>::empty());
    while i < sides.len()
        invariant
            i <= sides.len() == sm.len(),
            sm == refs_model(sides@),
            map_solids(root@) is Ok,
            visible_sides(map_solids(root@)->Ok_0) == Ok::<Seq<Node>, VmfError>(sm),
            faces_of(sm.take(i as int)) == Ok::<Seq<FaceModel>, VmfError>(faces_model(faces@)),
        decreases sides.len() - i,
    {
        assert(sm.take(i as int + 1).drop_last() =~= sm.take(i as int));
        let f = match face_from_side(sides[i]) {
            Err(err) => {
                proof {
                    lemma_faces_of_err(sm, i as int + 1);
                }
                return Err(err);
            },
            Ok(f) => f,
        };
        let ghost before = faces_model(faces@);
        faces.push(f);
        assert(faces_model(faces@) =~= before.push(face_of(sm[i as int])->Ok_0));
        i += 1;
    }
    assert(sm.take(i as int) =~= sm);
    Ok(faces)
}

/// The triangle fan over a face of `n` vertices stored from index `first` on: triangle `j`
/// is `first`, `first + j + 2`, `first + j + 1`, so that all keep the face's winding.
pub open spec fn fan(first: int, n: int) -> Seq<int>
    decreases n,
{
    if n < 3 {
        Seq::empty()
    } else {
        fan(first, n - 1) + seq![first, first + n - 1, first + n - 2]
    }
}

/// The number of vertices of faces with these vertex counts.
pub open spec fn total(counts: Seq<int>) -> int
    decreases counts.len(),
{
    if counts.len() == 0 {
        0
    } else {
        total(counts.drop_last()) + counts.last()
    }
}

/// The index buffer over faces with these vertex counts, stored one face after another.
pub open spec fn fans(counts: Seq<int>) -> Seq<int>
    decreases counts.len(),
{
    if counts.len() == 0 {
        Seq::empty()
    } else {
        fans(counts.drop_last()) + fan(total(counts.drop_last()), counts.last())
    }
}

pub open spec fn face_counts(faces: Seq<FaceModel>) -> Seq<int> {
    faces.map_values(|f: FaceModel| f.vertices.len() as int)
}

pub open spec fn indices_model(v: Seq<u32>) -> Seq<int> {
    v.map_values(|x: u32| x as int)
}

/// What a map text gives: its faces to draw, or the error met first.
pub open spec fn map_text(text: Seq<char>) -> Result<Seq<FaceModel>, VmfError> {
    match parse_text(text) {
        Err(e) => Err(e),
        Ok(root) => match map_faces(Node::Branch(root)) {
            Err(e) => Err(e),
            Ok(faces) => if total(face_counts(faces)) > u32::MAX {
                Err(VmfError::TooManyVertices)
            } else {
                Ok(faces)
            },
        },
    }
}

pub proof fn lemma_fan_len(first: int, n: int)
    ensures
        fan(first, n).len() == if n < 3 { 0 } else { 3 * (n - 2) },
    decreases n,
{
    if n >= 3 {
        lemma_fan_len(first, n - 1);
    }
}

pub proof fn lemma_total_nonneg(counts: Seq<int>)
    requires
        forall|i: int| 0 <= i < counts.len() ==> counts[i] >= 0,
    ensures
        total(counts) >= 0,
        forall|i: int| 0 <= i < counts.len() ==> total(counts.take(i)) + counts[i] <= total(counts),
    decreases counts.len(),
{
    if counts.len() > 0 {
        let d = counts.drop_last();
        lemma_total_nonneg(d);
        assert forall|i: int| 0 <= i < counts.len() implies total(counts.take(i)) + counts[i]
            <= total(counts) by {
            if i < counts.len() - 1 {
                assert(d.take(i) =~= counts.take(i));
                assert(d[i] == counts[i]);
            } else {
                assert(counts.take(i) =~= d);
            }
        }
    }
}

/// Appends the fan over a face of `n` vertices stored from `first` on.
fn push_fan(out: &mut Vec<u32>, first: u32, n: usize)
    requires
        first as int + n as int <= u32::MAX + 1,
    ensures
        indices_model(final(out)@) == indices_model(old(out)@) + fan(first as int, n as int),
{
    let ghost start = indices_model(out@);
    if n < 3 {
        assert(start + fan(first as int, n as int) =~= start);
        return;
    }
    let mut m: usize = 2;
    assert(start + fan(first as int, 2) =~= start);
    while m < n
        invariant
            2 <= m <= n,
            first as int + n as int <= u32::MAX + 1,
            indices_model(out@) == start + fan(first as int, m as int),
        decreases n - m,
    {
        let ghost prev = indices_model(out@);
        let a = first;
        let b = first + m as u32;
        let c = first + (m - 1) as u32;
        out.push(a);
        out.push(b);
        out.push(c);
        m += 1;
        assert(indices_model(out@) =~= prev + seq![a as int, b as int, c as int]);
        assert(fan(first as int, m as int) == fan(first as int, m - 1) + seq![
            first as int,
            first as int + m - 1,
            first as int + m - 2,
        ]);
        assert(indices_model(out@) =~= start + fan(first as int, m as int));
    }
}

/// The index buffer over `faces`, whose vertices are stored one face after another.
pub fn face_indices(faces: &Vec<Face>) -> (r: Vec<u32>)
    requires
        total(face_counts(faces_model(faces@))) <= u32::MAX,
    ensures
        indices_model(r@) == fans(face_counts(faces_model(faces@))),
{
    let ghost counts = face_counts(faces_model(faces@));
    let mut out: Vec<u32> = Vec::new();
    let mut first: u32 = 0;
    let mut i: usize = 0;
    proof {
        lemma_total_nonneg(counts);
    }
    assert(counts.take(0) =~= Seq::<int>::empty());
    assert(indices_model(out@) =~= Seq::<int>::empty());
    while i < faces.len()
        invariant
            i <= faces.len() == counts.len(),
            counts == face_counts(faces_model(faces@)),
            total(counts) <= u32::MAX,
            forall|k: int| 0 <= k < counts.len() ==> total(counts.take(k)) + counts[k] <= total(counts),
            first == total(counts.take(i as int)),
            indices_model(out@) == fans(counts.take(i as int)),
        decreases faces.len() - i,
    {
        let n = faces[i].vertices.len();
        assert(counts[i as int] == n);
        assert(counts.take(i as int + 1).drop_last() =~= counts.take(i as int));
        push_fan(&mut out, first, n);
        assert(first as int + n as int <= total(counts));
        first = first + n as u32;
        i += 1;
    }
    assert(counts.take(i as int) =~= counts);
    out
}

/// A map's drawable geometry: the faces to draw and the triangles that cover them.
pub struct MapGeometry {
    pub faces: Vec<Face>,
    pub indices: Vec<u32>,
}

impl MapGeometry {
    /// Reads a map text: parses it, keeps the faces to draw and triangulates each as a fan.
    pub fn from_string(text: &str) -> (r: Result<MapGeometry, VmfError>)
        ensures
            r is Ok <==> map_text(text@) is Ok,
            r is Ok ==> faces_model(r->Ok_0.faces@) == map_text(text@)->Ok_0 && indices_model(
                r->Ok_0.indices@,
            ) == fans(face_counts(map_text(text@)->Ok_0)),
            r is Err ==> r->Err_0 == map_text(text@)->Err_0,
    {
        let vmf = Vmf::from_string(text)?;
        let faces = extract_faces(&vmf.root)?;
        let mut sum: u64 = 0;
        let mut i: usize = 0;
        let ghost counts = face_counts(faces_model(faces@));
        assert(counts.take(0) =~= Seq::<int>::empty());
        while i < faces.len()
            invariant
                i <= faces.len() == counts.len(),
                counts == face_counts(faces_model(faces@)),
                sum == total(counts.take(i as int)),
                sum <= u32::MAX,
                parse_text(text@) is Ok,
                vmf.root@ == Node::Branch(parse_text(text@)->Ok_0),
                map_faces(vmf.root@) is Ok,
                faces_model(faces@) == map_faces(vmf.root@)->Ok_0,
            decreases faces.len() - i,
        {
            let n = faces[i].vertices.len();
            assert(counts[i as int] == n);
            assert(counts.take(i as int + 1).drop_last() =~= counts.take(i as int));
            if n as u64 > u32::MAX as u64 - sum {
                proof {
                    lemma_total_nonneg(counts);
                    assert(counts.take(i as int + 1) =~= counts.take(i as int).push(n as int));
                }
                return Err(VmfError::TooManyVertices);
            }
            sum = sum + n as u64;
            i += 1;
        }
        assert(counts.take(i as int) =~= counts);
        let indices = face_indices(&faces);
        Ok(MapGeometry { faces, indices })
    }

    /// A map with nothing to draw.
    pub fn empty() -> (r: MapGeometry)
        ensures
            r.faces@.len() == 0,
            r.indices@.len() == 0,
    {
        MapGeometry { faces: Vec::new(), indices: Vec::new() }
    }
}

pub proof fn lemma_keep_visible(s: Seq<Node>)
    ensures
        forall|k: int| 0 <= k < keep_visible(s).len() ==> is_visible(#[trigger] keep_visible(s)[k]),
    decreases s.len(),
{
    if s.len() > 0 {
        let d = s.drop_last();
        lemma_keep_visible(d);
        assert forall|k: int| 0 <= k < keep_visible(s).len() implies is_visible(
            #[trigger] keep_visible(s)[k],
        ) by {
            if k < keep_visible(d).len() {
                assert(keep_visible(s)[k] == keep_visible(d)[k]);
            }
        }
    }
}

pub proof fn lemma_visible_sides(solids: Seq<Node>)
    requires
        visible_sides(solids) is Ok,
    ensures
        forall|k: int|
            0 <= k < visible_sides(solids)->Ok_0.len() ==> is_visible(
                #[trigger] visible_sides(solids)->Ok_0[k],
            ),
    decreases solids.len(),
{
    if solids.len() > 0 {
        lemma_visible_sides(solids.drop_last());
        let acc = visible_sides(solids.drop_last())->Ok_0;
        let s = all_values(solids.last(), "side"@)->Ok_0;
        lemma_keep_visible(s);
        assert forall|k: int| 0 <= k < visible_sides(solids)->Ok_0.len() implies is_visible(
            #[trigger] visible_sides(solids)->Ok_0[k],
        ) by {
            if k >= acc.len() {
                assert(visible_sides(solids)->Ok_0[k] == keep_visible(s)[k - acc.len()]);
            }
        }
    }
}

pub proof fn lemma_faces_of(sides: Seq<Node>)
    requires
        faces_of(sides) is Ok,
    ensures
        faces_of(sides)->Ok_0.len() == sides.len(),
        forall|k: int|
            0 <= k < sides.len() ==> face_of(#[trigger] sides[k]) is Ok && faces_of(sides)->Ok_0[k]
                == face_of(sides[k])->Ok_0,
    decreases sides.len(),
{
    if sides.len() > 0 {
        let d = sides.drop_last();
        lemma_faces_of(d);
        assert forall|k: int| 0 <= k < sides.len() implies face_of(#[trigger] sides[k]) is Ok
            && faces_of(sides)->Ok_0[k] == face_of(sides[k])->Ok_0 by {
            if k < d.len() {
                assert(sides[k] == d[k]);
                assert(faces_of(sides)->Ok_0[k] == faces_of(d)->Ok_0[k]);
            }
        }
    }
}

/// The number of indices in fans over faces with these vertex counts.
pub open spec fn fan_index_count(counts: Seq<int>) -> int
    decreases counts.len(),
{
    if counts.len() == 0 {
        0
    } else {
        fan_index_count(counts.drop_last()) + 3 * (counts.last() - 2)
    }
}

pub proof fn lemma_fans_len(counts: Seq<int>)
    requires
        forall|k: int| 0 <= k < counts.len() ==> counts[k] >= 3,
    ensures
        fans(counts).len() == fan_index_count(counts),
    decreases counts.len(),
{
    if counts.len() > 0 {
        lemma_fans_len(counts.drop_last());
        lemma_fan_len(total(counts.drop_last()), counts.last());
    }
}

/// No face of a tool material is ever drawn, and every other face is: the faces that a
/// map text gives are its visible sides, one face per side in order; each has a material
/// outside the tool list and at least three vertices, and a face of `n` vertices adds a
/// fan of `3 * (n - 2)` indices.
pub proof fn lemma_tool_faces_never_drawn(text: Seq<char>)
    requires
        map_text(text) is Ok,
    ensures
        ({
            let sides = visible_sides(map_solids(Node::Branch(parse_text(text)->Ok_0))->Ok_0)->Ok_0;
            &&& map_text(text)->Ok_0.len() == sides.len()
            &&& forall|k: int|
                0 <= k < sides.len() ==> is_visible(#[trigger] sides[k]) && face_of(sides[k])
                    == Ok::<FaceModel, VmfError>(map_text(text)->Ok_0[k])
        }),
        forall|k: int|
            0 <= k < map_text(text)->Ok_0.len() ==> !is_tool_material(
                (#[trigger] map_text(text)->Ok_0[k]).material,
            ) && map_text(text)->Ok_0[k].vertices.len() >= 3,
        fans(face_counts(map_text(text)->Ok_0)).len() == fan_index_count(
            face_counts(map_text(text)->Ok_0),
        ),
{
    let root = Node::Branch(parse_text(text)->Ok_0);
    let solids = map_solids(root)->Ok_0;
    let sides = visible_sides(solids)->Ok_0;
    let faces = map_text(text)->Ok_0;
    lemma_visible_sides(solids);
    lemma_faces_of(sides);
    assert forall|k: int| 0 <= k < sides.len() implies is_visible(#[trigger] sides[k])
        && face_of(sides[k]) == Ok::<FaceModel, VmfError>(faces[k]) by {
        assert(face_of(sides[k]) is Ok);
    }
    assert forall|k: int| 0 <= k < faces.len() implies !is_tool_material(
        (#[trigger] faces[k]).material,
    ) && faces[k].vertices.len() >= 3 by {
        assert(is_visible(sides[k]));
        assert(face_of(sides[k]) is Ok);
    }
    lemma_fans_len(face_counts(faces));
}

pub proof fn lemma_fans_locate(counts: Seq<int>, k: int)
    requires
        forall|i: int| 0 <= i < counts.len() ==> counts[i] >= 3,
        0 <= k < counts.len(),
    ensures
        fan_index_count(counts.take(k + 1)) == fan_index_count(counts.take(k)) + 3 * (counts[k]
            - 2),
        fan_index_count(counts.take(k + 1)) <= fans(counts).len(),
        fans(counts).subrange(fan_index_count(counts.take(k)), fan_index_count(counts.take(k + 1)))
            == fan(total(counts.take(k)), counts[k]),
    decreases counts.len(),
{
    let d = counts.drop_last();
    assert(counts.take(k + 1).drop_last() =~= counts.take(k));
    assert forall|i: int| 0 <= i < d.len() implies d[i] >= 3 by {
        assert(d[i] == counts[i]);
    }
    lemma_fans_len(d);
    lemma_fans_len(counts);
    lemma_fan_len(total(d), counts.last());
    if k == counts.len() - 1 {
        assert(counts.take(k) =~= d);
        assert(counts.take(k + 1) =~= counts);
        assert(fans(counts).subrange(fans(d).len() as int, fans(counts).len() as int) =~= fan(
            total(d),
            counts.last(),
        ));
    } else {
        lemma_fans_locate(d, k);
        assert forall|i: int| 0 <= i < counts.take(k).len() implies counts.take(k)[i] >= 3 by {
            assert(counts.take(k)[i] == counts[i]);
        }
        lemma_fans_len(counts.take(k));
        assert(fans(counts) == fans(d) + fan(total(d), counts.last()));
        assert(d.take(k) =~= counts.take(k));
        assert(d.take(k + 1) =~= counts.take(k + 1));
        assert(d[k] == counts[k]);
        assert(fans(counts).subrange(
            fan_index_count(counts.take(k)),
            fan_index_count(counts.take(k + 1)),
        ) =~= fans(d).subrange(fan_index_count(d.take(k)), fan_index_count(d.take(k + 1))));
    }
}

/// Each drawn face's triangles stand together, after those of every earlier face: the
/// indices of face `k` are the fan over its vertices (see `fan`), which start after the
/// vertices of the faces before it.
pub proof fn lemma_face_fan_in_place(text: Seq<char>, k: int)
    requires
        map_text(text) is Ok,
        0 <= k < map_text(text)->Ok_0.len(),
    ensures
        ({
            let counts = face_counts(map_text(text)->Ok_0);
            &&& fan_index_count(counts.take(k + 1)) <= fans(counts).len()
            &&& fans(counts).subrange(
                fan_index_count(counts.take(k)),
                fan_index_count(counts.take(k + 1)),
            ) == fan(total(counts.take(k)), counts[k])
        }),
{
    let faces = map_text(text)->Ok_0;
    let counts = face_counts(faces);
    lemma_tool_faces_never_drawn(text);
    assert forall|i: int| 0 <= i < counts.len() implies counts[i] >= 3 by {
        assert(faces[i].vertices.len() >= 3);
    }
    lemma_fans_locate(counts, k);
}

/// A side that is not drawn (a tool material, or no readable material) contributes
/// nothing, whatever else it holds: taking it out of a solid's sides leaves the sides kept
/// for drawing, and so the faces, exactly as they were.
pub proof fn lemma_hidden_side_contributes_nothing(sides: Seq<Node>, k: int)
    requires
        0 <= k < sides.len(),
        !is_visible(sides[k]),
    ensures
        keep_visible(sides.remove(k)) == keep_visible(sides),
    decreases sides.len(),
{
    let d = sides.drop_last();
    if k == sides.len() - 1 {
        assert(sides.remove(k) =~= d);
    } else {
        assert(d[k] == sides[k]);
        lemma_hidden_side_contributes_nothing(d, k);
        assert(sides.remove(k).drop_last() =~= d.remove(k));
        assert(sides.remove(k).last() == sides.last());
    }
}

} // verus!
