use vstd::prelude::*;
use crate::geom::{ring_is_valid, valid_ring};
use crate::map_model::{no_filters, Filters, MapModel, Road};
use crate::neighbourhood::Neighbourhood;
use crate::types::{kind_name, kind_of_name, lemma_kind_name_round_trip, FilterKind, LtnError, ModalFilter, Pt};

verus! {

/// One record of a savefile.
pub enum SaveRecord {
    /// A filtered road: its id, its geometry (which must match the road's),
    /// the filter kind's stable name and the filter's position.
    Filter { road: usize, geometry: Vec<Pt>, kind: String, position: Option<u16> },
    /// The neighbourhood boundary ring.
    Boundary { ring: Vec<Pt> },
}

/// The content of a record, as plain values.
pub ghost enum RecordView {
    Filter(usize, Seq<Pt>, Seq<char>, Option<u16>),
    Boundary(Seq<Pt>),
}

impl SaveRecord {
    pub open spec fn view(&self) -> RecordView {
        match self {
            SaveRecord::Filter { road, geometry, kind, position } => RecordView::Filter(
                *road,
                geometry@,
                kind@,
                *position,
            ),
            SaveRecord::Boundary { ring } => RecordView::Boundary(ring@),
        }
    }
}

pub open spec fn views(recs: Seq<SaveRecord>) -> Seq<RecordView> {
    recs.map_values(|r: SaveRecord| r.view())
}

/// The records for the filtered roads among the first `k`, in id order.
pub open spec fn filter_records(roads: Seq<Road>, fs: Filters, k: nat) -> Seq<RecordView>
    decreases k,
{
    if k == 0 {
        Seq::empty()
    } else {
        let prev = filter_records(roads, fs, (k - 1) as nat);
        match fs[k - 1] {
            Some(f) => prev.push(
                RecordView::Filter((k - 1) as usize, roads[k - 1].geometry@, kind_name(f.kind), f.position),
            ),
            None => prev,
        }
    }
}

/// What a savefile holds: one record per filtered road, then the boundary if
/// there is one.
pub open spec fn encoding(roads: Seq<Road>, fs: Filters, boundary: Option<Seq<Pt>>) -> Seq<RecordView> {
    let body = filter_records(roads, fs, roads.len());
    match boundary {
        Some(b) => body.push(RecordView::Boundary(b)),
        None => body,
    }
}

/// The state after reading one more record, or `None` once a record failed.
pub open spec fn decode_step(
    roads: Seq<Road>,
    st: Option<(Filters, Option<Seq<Pt>>)>,
    rec: RecordView,
) -> Option<(Filters, Option<Seq<Pt>>)> {
    match st {
        None => None,
        Some((fs, b)) => match rec {
            RecordView::Filter(r, g, name, pos) => {
                if r < roads.len() && roads[r as int].geometry@ == g && kind_of_name(name) is Some {
                    Some((fs.update(r as int, Some(ModalFilter { kind: kind_of_name(name).unwrap(), position: pos })), b))
                } else {
                    None
                }
            },
            RecordView::Boundary(ring) => {
                if b is None && valid_ring(ring) {
                    Some((fs, Some(ring)))
                } else {
                    None
                }
            },
        },
    }
}

/// Reads the first `k` records, starting from no filters and no boundary.
pub open spec fn decode_prefix(roads: Seq<Road>, recs: Seq<RecordView>, k: nat) -> Option<(Filters, Option<Seq<Pt>>)>
    decreases k,
{
    if k == 0 || k > recs.len() {
        Some((no_filters(roads.len()), None))
    } else {
        decode_step(roads, decode_prefix(roads, recs, (k - 1) as nat), recs[k - 1])
    }
}

/// The filter set and boundary that a savefile describes, or `None` where a
/// record matches no road, names no known kind, or gives a second or
/// malformed boundary.
pub open spec fn decoding(roads: Seq<Road>, recs: Seq<RecordView>) -> Option<(Filters, Option<Seq<Pt>>)> {
    decode_prefix(roads, recs, recs.len())
}

proof fn lemma_decode_prefix(roads: Seq<Road>, a: Seq<RecordView>, b: Seq<RecordView>, k: nat)
    requires
        k <= a.len(),
        k <= b.len(),
        a.take(k as int) == b.take(k as int),
    ensures
        decode_prefix(roads, a, k) == decode_prefix(roads, b, k),
    decreases k,
{
    if k > 0 {
        assert(a.take(k as int)[k - 1] == a[k - 1]);
        assert(b.take(k as int)[k - 1] == b[k - 1]);
        assert(a.take((k - 1) as int) == a.take(k as int).take((k - 1) as int));
        assert(b.take((k - 1) as int) == b.take(k as int).take((k - 1) as int));
        lemma_decode_prefix(roads, a, b, (k - 1) as nat);
    }
}

/// The first `k` entries of a filter set, the rest cleared.
pub open spec fn first_filters(fs: Filters, k: nat) -> Filters {
    Seq::new(fs.len(), |i: int| if i < k { fs[i] } else { None })
}

proof fn lemma_decode_filter_records(roads: Seq<Road>, fs: Filters, k: nat)
    requires
        fs.len() == roads.len(),
        k <= roads.len(),
        roads.len() <= usize::MAX,
    ensures
        decoding(roads, filter_records(roads, fs, k)) == Some((first_filters(fs, k), None::<Seq<Pt>>)),
    decreases k,
{
    if k == 0 {
        assert(first_filters(fs, 0) =~= no_filters(roads.len()));
    } else {
        let prev = filter_records(roads, fs, (k - 1) as nat);
        lemma_decode_filter_records(roads, fs, (k - 1) as nat);
        match fs[k - 1] {
            Some(f) => {
                let cur = filter_records(roads, fs, k);
                assert(cur == prev.push(
                    RecordView::Filter((k - 1) as usize, roads[k - 1].geometry@, kind_name(f.kind), f.position),
                ));
                assert(cur.take(prev.len() as int) == prev);
                assert(prev.take(prev.len() as int) == prev);
                lemma_decode_prefix(roads, cur, prev, prev.len());
                lemma_kind_name_round_trip(f.kind);
                assert(cur.len() == prev.len() + 1);
                assert(decode_prefix(roads, cur, prev.len()) == Some((first_filters(fs, (k - 1) as nat), None::<Seq<Pt>>)));
                assert(ModalFilter { kind: f.kind, position: f.position } == f);
                assert(first_filters(fs, (k - 1) as nat).update(k - 1, Some(f)) =~= first_filters(fs, k));
            },
            None => {
                assert(first_filters(fs, (k - 1) as nat) =~= first_filters(fs, k));
            },
        }
    }
}

/// Reading back what was saved gives the same filter set and boundary.
pub proof fn lemma_savefile_round_trip(roads: Seq<Road>, fs: Filters, boundary: Option<Seq<Pt>>)
    requires
        fs.len() == roads.len(),
        roads.len() <= usize::MAX,
        boundary matches Some(b) ==> valid_ring(b),
    ensures
        decoding(roads, encoding(roads, fs, boundary)) == Some((fs, boundary)),
{
    let body = filter_records(roads, fs, roads.len());
    lemma_decode_filter_records(roads, fs, roads.len());
    assert(first_filters(fs, roads.len()) =~= fs);
    match boundary {
        Some(b) => {
            let all = body.push(RecordView::Boundary(b));
            assert(all.take(body.len() as int) == body);
            assert(body.take(body.len() as int) == body);
            lemma_decode_prefix(roads, all, body, body.len());
        },
        None => {},
    }
}

fn copy_points(v: &Vec<Pt>) -> (r: Vec<Pt>)
    ensures
        r@ == v@,
{
    let mut out: Vec<Pt> = Vec::new();
    let mut i: usize = 0;
    while i < v.len()
        invariant
            i <= v@.len(),
            out@ == v@.take(i as int),
        decreases v@.len() - i,
    {
        out.push(v[i]);
        proof {
            assert(v@.take(i + 1) == v@.take(i as int).push(v@[i as int]));
        }
        i = i + 1;
    }
    proof {
        assert(v@.take(v@.len() as int) == v@);
    }
    out
}

fn same_points(a: &Vec<Pt>, b: &Vec<Pt>) -> (r: bool)
    ensures
        r == (a@ == b@),
{
    if a.len() != b.len() {
        return false;
    }
    let mut i: usize = 0;
    while i < a.len()
        invariant
            a@.len() == b@.len(),
            i <= a@.len(),
            forall|k: int| 0 <= k < i ==> a@[k] == b@[k],
        decreases a@.len() - i,
    {
        if a[i] != b[i] {
            return false;
        }
        i = i + 1;
    }
    proof {
        assert(a@ =~= b@);
    }
    true
}

/// Writes the filter set, and the neighbourhood's boundary if one is given.
pub fn encode(m: &MapModel, nb: Option<&Neighbourhood>) -> (r: Vec<SaveRecord>)
    requires
        m.wf(),
    ensures
        views(r@) == encoding(
            m.roads@,
            m.filters@,
            match nb {
                Some(n) => Some(n.boundary@),
                None => None,
            },
        ),
{
    let mut out: Vec<SaveRecord> = Vec::new();
    let mut k: usize = 0;
    while k < m.roads.len()
        invariant
            m.wf(),
            k <= m.roads@.len(),
            views(out@) == filter_records(m.roads@, m.filters@, k as nat),
        decreases m.roads@.len() - k,
    {
        match m.filters[k] {
            Some(f) => {
                let rec = SaveRecord::Filter {
                    road: k,
                    geometry: copy_points(&m.roads[k].geometry),
                    kind: f.kind.to_name(),
                    position: f.position,
                };
                let ghost before = out@;
                out.push(rec);
                proof {
                    assert(views(out@) =~= views(before).push(rec.view()));
                }
            },
            None => {},
        }
        k = k + 1;
    }
    match nb {
        Some(n) => {
            let ghost before = out@;
            let rec = SaveRecord::Boundary { ring: copy_points(&n.boundary) };
            out.push(rec);
            proof {
                assert(views(out@) =~= views(before).push(rec.view()));
            }
        },
        None => {},
    }
    out
}

/// Reads a savefile against the network: the filter set and the boundary it
/// describes, or `MalformedSavefile`.
pub fn decode(m: &MapModel, recs: &Vec<SaveRecord>) -> (r: Result<(Vec<Option<ModalFilter>>, Option<Vec<Pt>>), LtnError>)
    requires
        m.wf(),
    ensures
        r is Ok <==> decoding(m.roads@, views(recs@)) is Some,
        r matches Ok((fs, b)) ==> decoding(m.roads@, views(recs@)) == Some((fs@, match b {
            Some(v) => Some(v@),
            None => None,
        })),
        r matches Err(e) ==> e == LtnError::MalformedSavefile,
{
    let ghost vs = views(recs@);
    let mut fs = crate::map_model::none_filters(m.roads.len());
    let mut boundary: Option<Vec<Pt>> = None;
    let mut i: usize = 0;
    while i < recs.len()
        invariant
            m.wf(),
            vs == views(recs@),
            i <= recs@.len(),
            fs@.len() == m.roads@.len(),
            decode_prefix(m.roads@, vs, i as nat) == Some((fs@, match boundary {
                Some(v) => Some(v@),
                None => None,
            })),
        decreases recs@.len() - i,
    {
        proof {
            assert(vs[i as int] == recs@[i as int].view());
        }
        match &recs[i] {
            SaveRecord::Filter { road, geometry, kind, position } => {
                if *road >= m.roads.len() || !same_points(&m.roads[*road].geometry, geometry) {
                    proof {
                        lemma_decode_fails_after(m.roads@, vs, (i + 1) as nat);
                    }
                    return Err(LtnError::MalformedSavefile);
                }
                match FilterKind::from_name(kind) {
                    Some(k) => {
                        fs.set(*road, Some(ModalFilter { kind: k, position: *position }));
                    },
                    None => {
                        proof {
                            lemma_decode_fails_after(m.roads@, vs, (i + 1) as nat);
                        }
                        return Err(LtnError::MalformedSavefile);
                    },
                }
            },
            SaveRecord::Boundary { ring } => {
                if boundary.is_some() || !ring_is_valid(ring) {
                    proof {
                        lemma_decode_fails_after(m.roads@, vs, (i + 1) as nat);
                    }
                    return Err(LtnError::MalformedSavefile);
                }
                boundary = Some(copy_points(ring));
            },
        }
        i = i + 1;
    }
    Ok((fs, boundary))
}

/// A decoded filter set covers every road, and a decoded boundary is a valid ring.
pub proof fn lemma_decoding_valid(roads: Seq<Road>, recs: Seq<RecordView>, k: nat)
    ensures
        decode_prefix(roads, recs, k) matches Some((fs, b)) ==> fs.len() == roads.len() && (b matches Some(
            ring,
        ) ==> valid_ring(ring)),
    decreases k,
{
    if k > 0 && k <= recs.len() {
        lemma_decoding_valid(roads, recs, (k - 1) as nat);
    }
}

/// Once a record has failed, reading more records cannot succeed.
proof fn lemma_decode_fails_after(roads: Seq<Road>, recs: Seq<RecordView>, k: nat)
    requires
        k <= recs.len(),
        decode_prefix(roads, recs, k) is None,
    ensures
        decode_prefix(roads, recs, recs.len()) is None,
    decreases recs.len() - k,
{
    if k < recs.len() {
        lemma_decode_fails_after(roads, recs, k + 1);
    }
}

} // verus!
