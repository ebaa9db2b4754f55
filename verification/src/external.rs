//! What the vector index answers: its points as hits.

use vstd::prelude::*;
use crate::models::ScoreKey;
use crate::numbers;

verus! {

/// A card chunk near a vector.
#[derive(Debug, Clone)]
pub struct DenseHit {
    pub point_id: i64,
    pub card_id: i64,
    pub score: ScoreKey,
    pub snippet: String,
}

/// What a card chunk near a vector says.
#[verifier::ext_equal]
pub struct DenseHitView {
    pub point_id: i64,
    pub card_id: i64,
    pub score: ScoreKey,
    pub snippet: Seq<char>,
}

impl View for DenseHit {
    type V = DenseHitView;

    open spec fn view(&self) -> DenseHitView {
        DenseHitView {
            point_id: self.point_id,
            card_id: self.card_id,
            score: self.score,
            snippet: self.snippet@,
        }
    }
}

/// The views of a list of hits.
pub open spec fn dense_views(v: Seq<DenseHit>) -> Seq<DenseHitView> {
    Seq::new(v.len(), |i: int| v[i]@)
}

/// An id as the index may write it.
#[derive(Debug, Clone)]
pub enum IdValue {
    Int(i64),
    Text(String),
    Other,
}

/// The id that a value writes: a whole number, as a number or as a text.
pub open spec fn id_of(value: IdValue) -> Option<i64> {
    match value {
        IdValue::Int(id) => Some(id),
        IdValue::Text(raw) => match numbers::read_in_range(
            raw@,
            true,
            i64::MIN as int,
            i64::MAX as int,
        ) {
            Some(n) => Some(n as i64),
            None => None,
        },
        IdValue::Other => None,
    }
}

/// Reads an id that the index wrote.
pub fn qdrant_id_to_i64(value: &IdValue) -> (res: Option<i64>)
    ensures
        res == id_of(*value),
{
    match value {
        IdValue::Int(id) => Some(*id),
        IdValue::Text(raw) => numbers::parse_i64(raw.as_str()),
        IdValue::Other => None,
    }
}

/// A point of the index, with what a hit needs of its payload.
#[derive(Debug, Clone)]
pub struct QdrantPoint {
    /// The point's id, where it is a whole number.
    pub id: Option<i64>,
    pub score: ScoreKey,
    /// The member `card_id` of the payload, where it has one.
    pub card_id: Option<IdValue>,
    /// The member `chunk_text` of the payload, where it is a text.
    pub chunk_text: Option<String>,
}

/// The hit that a point makes, if it has an id and names a card.
pub open spec fn hit_of(point: QdrantPoint) -> Option<DenseHitView> {
    match (point.id, point.card_id) {
        (Some(point_id), Some(value)) => match id_of(value) {
            Some(card_id) => Some(
                DenseHitView {
                    point_id,
                    card_id,
                    score: point.score,
                    snippet: match point.chunk_text {
                        Some(text) => text@,
                        None => Seq::empty(),
                    },
                },
            ),
            None => None,
        },
        _ => None,
    }
}

/// The hits that a list of points makes, in order.
pub open spec fn hits_of(points: Seq<QdrantPoint>) -> Seq<DenseHitView>
    decreases points.len(),
{
    if points.len() == 0 {
        Seq::empty()
    } else {
        let front = hits_of(points.drop_last());
        match hit_of(points.last()) {
            Some(hit) => front.push(hit),
            None => front,
        }
    }
}

fn to_hit(point: QdrantPoint) -> (res: Option<DenseHit>)
    ensures
        match (hit_of(point), res) {
            (Some(view), Some(hit)) => hit@ == view,
            (None, None) => true,
            _ => false,
        },
{
    match (point.id, point.card_id) {
        (Some(point_id), Some(value)) => match qdrant_id_to_i64(&value) {
            Some(card_id) => {
                let snippet = match point.chunk_text {
                    Some(text) => text,
                    None => String::new(),
                };
                Some(DenseHit { point_id, card_id, score: point.score, snippet })
            },
            None => None,
        },
        _ => None,
    }
}

/// Reads the hits out of the points that the index answered; a point that names no card is left
/// out.
pub fn dense_search(points: Vec<QdrantPoint>) -> (res: Vec<DenseHit>)
    ensures
        dense_views(res@) == hits_of(points@),
{
    let ghost all = points@;
    let mut res: Vec<DenseHit> = Vec::new();
    assert(dense_views(res@) =~= Seq::<DenseHitView>::empty());
    for point in it: points
        invariant
            it.seq() == all,
            dense_views(res@) == hits_of(all.take(it.index() as int)),
    {
        assert(all.take(it.index() + 1).drop_last() =~= all.take(it.index() as int));
        assert(point == all[it.index() as int]);
        let ghost before = dense_views(res@);
        match to_hit(point) {
            Some(hit) => {
                let ghost added = hit@;
                res.push(hit);
                assert(dense_views(res@) =~= before.push(added));
            },
            None => {},
        }
    }
    assert(all.take(all.len() as int) =~= all);
    res
}

} // verus!
