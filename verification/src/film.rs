//! The document model shared by both search backends: a film row, a search
//! hit, and the decisions a vector-database adapter makes about the points
//! it stores and reads back.

use vstd::prelude::*;
use crate::embed::EmbedError;
use crate::rank::{is_descending_order, keys_of, order_by_score_desc};

verus! {

/// One row of the Sakila `film` table: the corpus the demos embed.
#[derive(Debug, Clone)]
pub struct Film {
    /// Sakila auto-increment primary key. Always positive.
    pub id: u64,
    /// Film title (e.g. `"ACADEMY DINOSAUR"`).
    pub title: String,
    /// 1–3 sentence creative description.
    pub description: String,
}

impl Film {
    /// An identical copy of this film.
    pub fn duplicate(&self) -> (f: Film)
        ensures
            f == *self,
    {
        Film { id: self.id, title: self.title.clone(), description: self.description.clone() }
    }
}

/// One search hit, with its backend-reported similarity score carried as
/// the score's IEEE-754 single-precision bit pattern (higher scores are
/// better, see `rank::score_key`).
#[derive(Debug, Clone)]
pub struct FilmHitRecord {
    /// Sakila film id of the matched row.
    pub id: u64,
    /// Film title.
    pub title: String,
    /// Bit pattern of the similarity score.
    pub score_bits: u32,
}

/// The id a vector database reports for a stored point.
#[derive(Debug, Clone)]
pub enum PointIdModel {
    /// A numeric point id.
    Num(u64),
    /// A UUID point id, as text.
    Uuid(String),
}

/// The value a stored point's payload holds under the `title` key, when it
/// has one.
#[derive(Debug, Clone)]
pub enum PayloadValueModel {
    /// A string value.
    Text(String),
    /// A value of any other kind.
    Other,
}

/// The film id of a returned point: its numeric id, and 0 when the server
/// returned no id or a UUID.
pub open spec fn hit_id_spec(id: Option<PointIdModel>) -> u64 {
    match id {
        Some(PointIdModel::Num(n)) => n,
        _ => 0,
    }
}

/// The film title of a returned point: the string stored under `title`, and
/// the empty string when there is none.
pub open spec fn hit_title_spec(title: Option<PayloadValueModel>) -> Seq<char> {
    match title {
        Some(PayloadValueModel::Text(s)) => s@,
        _ => Seq::empty(),
    }
}

/// Computes [`hit_id_spec`].
pub fn hit_id(id: &Option<PointIdModel>) -> (n: u64)
    ensures
        n == hit_id_spec(*id),
{
    match id {
        Some(PointIdModel::Num(n)) => *n,
        _ => 0,
    }
}

/// Computes [`hit_title_spec`].
pub fn hit_title(title: &Option<PayloadValueModel>) -> (s: String)
    ensures
        s@ == hit_title_spec(*title),
{
    match title {
        Some(PayloadValueModel::Text(s)) => s.clone(),
        _ => String::new(),
    }
}

/// Decodes one scored point returned by a vector database into a hit.
pub fn decode_hit(id: &Option<PointIdModel>, title: &Option<PayloadValueModel>, score_bits: u32) -> (h: FilmHitRecord)
    ensures
        h.id == hit_id_spec(*id),
        h.title@ == hit_title_spec(*title),
        h.score_bits == score_bits,
{
    FilmHitRecord { id: hit_id(id), title: hit_title(title), score_bits }
}

/// The score bit patterns of a list of hits.
pub open spec fn hit_scores(hits: Seq<FilmHitRecord>) -> Seq<u32> {
    hits.map_values(|h: FilmHitRecord| h.score_bits)
}

/// The hits, ordered by score, highest first; hits with equal scores keep
/// their order.
pub fn order_hits_by_score(hits: &Vec<FilmHitRecord>) -> (sorted: Vec<FilmHitRecord>)
    ensures
        exists|order: Seq<usize>| {
            &&& #[trigger] is_descending_order(keys_of(hit_scores(hits@)), order)
            &&& sorted@.len() == hits@.len()
            &&& forall|i: int| 0 <= i < sorted@.len() ==> {
                &&& (#[trigger] sorted@[i]).id == hits@[order[i] as int].id
                &&& sorted@[i].title@ == hits@[order[i] as int].title@
                &&& sorted@[i].score_bits == hits@[order[i] as int].score_bits
            }
        },
{
    let mut scores: Vec<u32> = Vec::with_capacity(hits.len());
    let mut i: usize = 0;
    while i < hits.len()
        invariant
            i <= hits@.len(),
            scores@ =~= hit_scores(hits@).take(i as int),
        decreases hits@.len() - i,
    {
        scores.push(hits[i].score_bits);
        i = i + 1;
        assert(scores@ =~= hit_scores(hits@).take(i as int));
    }
    assert(scores@ =~= hit_scores(hits@));
    let order = order_by_score_desc(&scores);
    let mut sorted: Vec<FilmHitRecord> = Vec::with_capacity(hits.len());
    let mut j: usize = 0;
    while j < order.len()
        invariant
            j <= order@.len(),
            is_descending_order(keys_of(hit_scores(hits@)), order@),
            sorted@.len() == j,
            forall|x: int| 0 <= x < j ==> {
                &&& (#[trigger] sorted@[x]).id == hits@[order@[x] as int].id
                &&& sorted@[x].title@ == hits@[order@[x] as int].title@
                &&& sorted@[x].score_bits == hits@[order@[x] as int].score_bits
            },
        decreases order@.len() - j,
    {
        let h = &hits[order[j]];
        sorted.push(FilmHitRecord { id: h.id, title: h.title.clone(), score_bits: h.score_bits });
        j = j + 1;
    }
    sorted
}

/// The point a film is stored as in a vector database: keyed by the film
/// id (so storing the film again replaces its point rather than adding a
/// second one), with the description as the text that gets embedded, and a
/// payload carrying the film's id, title and description.
#[derive(Debug, Clone)]
pub struct FilmPoint {
    /// Point id: the film id.
    pub point_id: u64,
    /// The text whose embedding is the point's vector.
    pub embedded_text: String,
    /// Payload `id`.
    pub payload_id: u64,
    /// Payload `title`.
    pub payload_title: String,
    /// Payload `description`.
    pub payload_description: String,
}

/// Shapes the point that stores `film`. A film without a title is refused
/// as empty text: it would be stored under no name.
pub fn film_point(film: &Film) -> (r: Result<FilmPoint, EmbedError>)
    ensures
        match r {
            Ok(p) => {
                &&& film.title@.len() > 0
                &&& p.point_id == film.id
                &&& p.embedded_text@ == film.description@
                &&& p.payload_id == film.id
                &&& p.payload_title@ == film.title@
                &&& p.payload_description@ == film.description@
            },
            Err(e) => film.title@.len() == 0 && e is EmptyText,
        },
{
    if film.title.unicode_len() == 0 {
        return Err(EmbedError::EmptyText);
    }
    Ok(FilmPoint {
        point_id: film.id,
        embedded_text: film.description.clone(),
        payload_id: film.id,
        payload_title: film.title.clone(),
        payload_description: film.description.clone(),
    })
}

/// What a failed collection creation's reply says when the collection was
/// there already.
pub const ALREADY_EXISTS: &'static str = "already exists";

/// `needle` occurs in `hay`.
pub open spec fn contains_text(hay: Seq<char>, needle: Seq<char>) -> bool {
    exists|i: int| 0 <= i && i + needle.len() <= hay.len() && #[trigger] hay.subrange(i, i + needle.len()) == needle
}

/// Whether `needle` occurs in `hay` at position `i`.
fn occurs_at(hay: &str, needle: &str, i: usize) -> (r: bool)
    requires
        i + needle@.len() <= hay@.len() <= usize::MAX,
    ensures
        r == (hay@.subrange(i as int, i + needle@.len()) == needle@),
{
    let n: usize = needle.unicode_len();
    let mut k: usize = 0;
    while k < n
        invariant
            n == needle@.len(),
            i + n <= hay@.len() <= usize::MAX,
            k <= n,
            forall|m: int| 0 <= m < k ==> hay@[i + m] == needle@[m],
        decreases n - k,
    {
        if hay.get_char(i + k) != needle.get_char(k) {
            proof {
                assert(hay@.subrange(i as int, i + n)[k as int] != needle@[k as int]);
            }
            return false;
        }
        k = k + 1;
    }
    proof {
        assert(hay@.subrange(i as int, i + n) =~= needle@);
    }
    true
}

/// A failed collection creation still leaves the collection in place when
/// the reply says it already exists: making sure a collection exists then
/// counts as done. Any other failure is an error.
pub fn creation_already_done(message: &str) -> (done: bool)
    ensures
        done == contains_text(message@, ALREADY_EXISTS@),
{
    let needle: &str = ALREADY_EXISTS;
    let n: usize = needle.unicode_len();
    let h: usize = message.unicode_len();
    if n == 0 {
        proof {
            assert(message@.subrange(0int, 0int + needle@.len()) =~= needle@);
            assert(contains_text(message@, ALREADY_EXISTS@));
        }
        return true;
    }
    let mut i: usize = 0;
    while i <= h && n <= h - i
        invariant
            n == needle@.len(),
            1 <= n,
            h == message@.len(),
            needle@ == ALREADY_EXISTS@,
            i <= h,
            forall|j: int| 0 <= j < i ==> #[trigger] message@.subrange(j, j + n) != needle@,
        decreases h - i,
    {
        if occurs_at(message, needle, i) {
            return true;
        }
        i = i + 1;
    }
    false
}

/// What to do to make sure a collection exists.
#[derive(Debug, Clone, Copy, PartialEq, Eq, Structural)]
pub enum CollectionStep {
    /// The collection is already there: nothing to do.
    Ready,
    /// The collection is missing: create it.
    Create,
}

/// Making sure a collection exists is idempotent: an existing collection is
/// left as it is, a missing one is created.
pub fn collection_step(exists: bool) -> (s: CollectionStep)
    ensures
        s == (if exists { CollectionStep::Ready } else { CollectionStep::Create }),
{
    if exists {
        CollectionStep::Ready
    } else {
        CollectionStep::Create
    }
}

/// A point with numeric id `n` decodes to a hit for film `n`, whatever its
/// title and score: the numeric point id is the film id, unchanged.
pub proof fn law_numeric_point_id_is_the_film_id(n: u64, title: Option<PayloadValueModel>, score_bits: u32, h: FilmHitRecord)
    requires
        h.id == hit_id_spec(Some(PointIdModel::Num(n))),
        h.title@ == hit_title_spec(title),
        h.score_bits == score_bits,
    ensures
        h.id == n,
{
}

/// A point whose payload title is the string `t` decodes to a hit titled
/// exactly `t`, whatever its id and score: the title is kept whole.
pub proof fn law_payload_title_is_kept_whole(id: Option<PointIdModel>, t: String, score_bits: u32, h: FilmHitRecord)
    requires
        h.id == hit_id_spec(id),
        h.title@ == hit_title_spec(Some(PayloadValueModel::Text(t))),
        h.score_bits == score_bits,
    ensures
        h.title@ == t@,
        h.title@.len() == t@.len(),
{
}

} // verus!
