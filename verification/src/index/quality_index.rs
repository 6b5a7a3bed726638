//! Quality index: quality scores and anomalies over time, and quarantined records.
use vstd::prelude::*;
use crate::text::{first_index, lemma_first_index, lemma_first_index_at, unique_keys, str_eq, string_views};
use crate::types::quality::{AnomalyRecord, QualityScore, Trend};
use super::schema_index::keys_of;

verus! {

/// The keys of a keyed list of scores.
pub open spec fn score_views(v: Seq<(String, Vec<QualityScore>)>) -> Seq<(Seq<char>, Seq<QualityScore>)> {
    v.map_values(|e: (String, Vec<QualityScore>)| (e.0@, e.1@))
}

/// The keys of a keyed list of anomalies.
pub open spec fn anomaly_views(v: Seq<(String, Vec<AnomalyRecord>)>) -> Seq<(Seq<char>, Seq<AnomalyRecord>)> {
    v.map_values(|e: (String, Vec<AnomalyRecord>)| (e.0@, e.1@))
}

/// The list after appending `x` under `k` (starting the list if there is none).
pub open spec fn append_item<A>(s: Seq<(Seq<char>, Seq<A>)>, k: Seq<char>, x: A) -> Seq<(Seq<char>, Seq<A>)> {
    match first_index(keys_of(s), k) {
        Some(i) => s.update(i, (k, s[i].1.push(x))),
        None => s.push((k, seq![x])),
    }
}

/// The items stored under `k` (none when there is no entry).
pub open spec fn items_of<A>(s: Seq<(Seq<char>, Seq<A>)>, k: Seq<char>) -> Seq<A> {
    match first_index(keys_of(s), k) {
        Some(i) => s[i].1,
        None => Seq::empty(),
    }
}

/// The trend of a list of scores: the change from the one before last to the last,
/// improving above 5, degrading below -5, unknown with fewer than two.
pub open spec fn trend_of(scores: Seq<QualityScore>) -> Trend {
    if scores.len() < 2 {
        Trend::Unknown
    } else {
        let diff = scores.last().score - scores[scores.len() - 2].score;
        if diff > 5 {
            Trend::Improving
        } else if diff < -5 {
            Trend::Degrading
        } else {
            Trend::Stable
        }
    }
}

/// The total number of items.
pub open spec fn total_items<A>(s: Seq<(Seq<char>, Seq<A>)>) -> nat
    decreases s.len(),
{
    if s.len() == 0 {
        0
    } else {
        total_items(s.drop_last()) + s.last().1.len()
    }
}

/// The anomalies not yet reviewed, key by key, in order.
pub open spec fn unreviewed(s: Seq<(Seq<char>, Seq<AnomalyRecord>)>) -> Seq<AnomalyRecord>
    decreases s.len(),
{
    if s.len() == 0 {
        Seq::empty()
    } else {
        unreviewed(s.drop_last()) + unreviewed_in(s.last().1)
    }
}

/// The anomalies of a list not yet reviewed, in order.
pub open spec fn unreviewed_in(s: Seq<AnomalyRecord>) -> Seq<AnomalyRecord>
    decreases s.len(),
{
    if s.len() == 0 {
        Seq::empty()
    } else {
        unreviewed_in(s.drop_last()) + if s.last().reviewed {
            Seq::empty()
        } else {
            seq![s.last()]
        }
    }
}

/// Index for quality scores and anomaly history.
#[derive(Debug)]
pub struct QualityIndex {
    scores: Vec<(String, Vec<QualityScore>)>,
    anomalies: Vec<(String, Vec<AnomalyRecord>)>,
    quarantined: Vec<String>,
}

impl QualityIndex {
    /// Scores by target, each target once, in the order first added.
    pub closed spec fn scores(&self) -> Seq<(Seq<char>, Seq<QualityScore>)> {
        score_views(self.scores@)
    }

    /// Anomalies by target, each target once, in the order first added.
    pub closed spec fn anomalies(&self) -> Seq<(Seq<char>, Seq<AnomalyRecord>)> {
        anomaly_views(self.anomalies@)
    }

    /// Quarantined record ids, each once, in the order quarantined.
    pub closed spec fn quarantined(&self) -> Seq<Seq<char>> {
        string_views(self.quarantined@)
    }

    #[verifier::type_invariant]
    closed spec fn inv(self) -> bool {
        &&& unique_keys(keys_of(score_views(self.scores@)))
        &&& unique_keys(keys_of(anomaly_views(self.anomalies@)))
        &&& unique_keys(string_views(self.quarantined@))
    }

    /// An empty index.
    pub fn new() -> (r: QualityIndex)
        ensures
            r.scores().len() == 0,
            r.anomalies().len() == 0,
            r.quarantined().len() == 0,
    {
        let r = QualityIndex { scores: Vec::new(), anomalies: Vec::new(), quarantined: Vec::new() };
        assert(keys_of(score_views(r.scores@)) =~= Seq::<Seq<char>>::empty());
        assert(keys_of(anomaly_views(r.anomalies@)) =~= Seq::<Seq<char>>::empty());
        assert(string_views(r.quarantined@) =~= Seq::<Seq<char>>::empty());
        r
    }

    fn score_pos(v: &Vec<(String, Vec<QualityScore>)>, key: &str) -> (r: Option<usize>)
        ensures
            match r {
                Some(i) => first_index(keys_of(score_views(v@)), key@) == Some(i as int) && i < v@.len(),
                None => first_index(keys_of(score_views(v@)), key@) is None,
            },
    {
        let ghost ks = keys_of(score_views(v@));
        let mut i: usize = 0;
        while i < v.len()
            invariant
                i <= v@.len(),
                ks == keys_of(score_views(v@)),
                forall|j: int| 0 <= j < i ==> ks[j] != key@,
            decreases v.len() - i,
        {
            assert(ks[i as int] == v@[i as int].0@);
            if str_eq(v[i].0.as_str(), key) {
                proof {
                    lemma_first_index_at(ks, key@, i as int);
                }
                return Some(i);
            }
            i = i + 1;
        }
        proof {
            lemma_first_index(ks, key@);
        }
        None
    }

    fn anomaly_pos(v: &Vec<(String, Vec<AnomalyRecord>)>, key: &str) -> (r: Option<usize>)
        ensures
            match r {
                Some(i) => first_index(keys_of(anomaly_views(v@)), key@) == Some(i as int) && i < v@.len(),
                None => first_index(keys_of(anomaly_views(v@)), key@) is None,
            },
    {
        let ghost ks = keys_of(anomaly_views(v@));
        let mut i: usize = 0;
        while i < v.len()
            invariant
                i <= v@.len(),
                ks == keys_of(anomaly_views(v@)),
                forall|j: int| 0 <= j < i ==> ks[j] != key@,
            decreases v.len() - i,
        {
            assert(ks[i as int] == v@[i as int].0@);
            if str_eq(v[i].0.as_str(), key) {
                proof {
                    lemma_first_index_at(ks, key@, i as int);
                }
                return Some(i);
            }
            i = i + 1;
        }
        proof {
            lemma_first_index(ks, key@);
        }
        None
    }

    /// Record a quality score snapshot under its target.
    pub fn add_score(&mut self, score: QualityScore)
        ensures
            final(self).scores() == append_item(old(self).scores(), score.target@, score),
            final(self).anomalies() == old(self).anomalies(),
            final(self).quarantined() == old(self).quarantined(),
    {
        proof {
            use_type_invariant(&*self);
        }
        let ghost v0 = score_views(self.scores@);
        let ghost sc = score;
        let mut v: Vec<(String, Vec<QualityScore>)> = Vec::new();
        std::mem::swap(&mut v, &mut self.scores);
        proof {
            lemma_first_index(keys_of(v0), score.target@);
        }
        match Self::score_pos(&v, score.target.as_str()) {
            Some(i) => {
                let (k, mut list) = v.remove(i);
                assert(k@ == sc.target@) by {
                    assert(keys_of(v0)[i as int] == v0[i as int].0);
                }
                let ghost l0 = list@;
                list.push(score);
                v.insert(i, (k, list));
                assert(score_views(v@) =~= v0.update(i as int, (sc.target@, l0.push(sc))));
                assert(keys_of(score_views(v@)) =~= keys_of(v0));
            },
            None => {
                let t = score.target.clone();
                let mut list: Vec<QualityScore> = Vec::new();
                list.push(score);
                assert(list@ =~= seq![sc]);
                v.push((t, list));
                assert(score_views(v@) =~= v0.push((sc.target@, seq![sc])));
                assert(keys_of(score_views(v@)) =~= keys_of(v0).push(sc.target@));
            },
        }
        self.scores = v;
    }

    /// Record an anomaly under its target.
    pub fn add_anomaly(&mut self, anomaly: AnomalyRecord)
        ensures
            final(self).anomalies() == append_item(old(self).anomalies(), anomaly.target@, anomaly),
            final(self).scores() == old(self).scores(),
            final(self).quarantined() == old(self).quarantined(),
    {
        proof {
            use_type_invariant(&*self);
        }
        let ghost v0 = anomaly_views(self.anomalies@);
        let ghost an = anomaly;
        let mut v: Vec<(String, Vec<AnomalyRecord>)> = Vec::new();
        std::mem::swap(&mut v, &mut self.anomalies);
        proof {
            lemma_first_index(keys_of(v0), anomaly.target@);
        }
        match Self::anomaly_pos(&v, anomaly.target.as_str()) {
            Some(i) => {
                let (k, mut list) = v.remove(i);
                assert(k@ == an.target@) by {
                    assert(keys_of(v0)[i as int] == v0[i as int].0);
                }
                let ghost l0 = list@;
                list.push(anomaly);
                v.insert(i, (k, list));
                assert(anomaly_views(v@) =~= v0.update(i as int, (an.target@, l0.push(an))));
                assert(keys_of(anomaly_views(v@)) =~= keys_of(v0));
            },
            None => {
                let t = anomaly.target.clone();
                let mut list: Vec<AnomalyRecord> = Vec::new();
                list.push(anomaly);
                assert(list@ =~= seq![an]);
                v.push((t, list));
                assert(anomaly_views(v@) =~= v0.push((an.target@, seq![an])));
                assert(keys_of(anomaly_views(v@)) =~= keys_of(v0).push(an.target@));
            },
        }
        self.anomalies = v;
    }

    /// Quarantine a record by id (once).
    pub fn quarantine(&mut self, record_id: &str)
        ensures
            final(self).quarantined() == if old(self).quarantined().contains(record_id@) {
                old(self).quarantined()
            } else {
                old(self).quarantined().push(record_id@)
            },
            final(self).scores() == old(self).scores(),
            final(self).anomalies() == old(self).anomalies(),
    {
        proof {
            use_type_invariant(&*self);
        }
        if !self.is_quarantined(record_id) {
            let ghost q0 = string_views(self.quarantined@);
            let mut v: Vec<String> = Vec::new();
            std::mem::swap(&mut v, &mut self.quarantined);
            v.push(record_id.to_owned());
            assert(string_views(v@) =~= q0.push(record_id@));
            self.quarantined = v;
        }
    }

    /// Whether a record is quarantined.
    pub fn is_quarantined(&self, record_id: &str) -> (r: bool)
        ensures
            r == self.quarantined().contains(record_id@),
    {
        let ghost q = string_views(self.quarantined@);
        let mut i: usize = 0;
        while i < self.quarantined.len()
            invariant
                i <= self.quarantined@.len(),
                q == string_views(self.quarantined@),
                forall|k: int| 0 <= k < i ==> q[k] != record_id@,
            decreases self.quarantined.len() - i,
        {
            assert(q[i as int] == self.quarantined@[i as int]@);
            if str_eq(self.quarantined[i].as_str(), record_id) {
                return true;
            }
            i = i + 1;
        }
        false
    }

    /// The quality timeline of a target: its scores, oldest first.
    pub fn timeline(&self, target: &str) -> (r: Vec<&QualityScore>)
        ensures
            r@.map_values(|x: &QualityScore| *x) == items_of(self.scores(), target@),
    {
        let mut out: Vec<&QualityScore> = Vec::new();
        match Self::score_pos(&self.scores, target) {
            None => {
                assert(out@.map_values(|x: &QualityScore| *x) =~= Seq::<QualityScore>::empty());
            },
            Some(i) => {
                let list = &self.scores[i].1;
                let mut k: usize = 0;
                while k < list.len()
                    invariant
                        k <= list@.len(),
                        out@.len() == k,
                        forall|q: int| 0 <= q < k ==> *(#[trigger] out@[q]) == list@[q],
                    decreases list.len() - k,
                {
                    out.push(&list[k]);
                    k = k + 1;
                }
                assert(out@.map_values(|x: &QualityScore| *x) =~= list@);
            },
        }
        out
    }

    /// The latest score of a target.
    pub fn latest_score(&self, target: &str) -> (r: Option<&QualityScore>)
        ensures
            items_of(self.scores(), target@).len() == 0 ==> r is None,
            items_of(self.scores(), target@).len() > 0 ==> (r matches Some(x) && *x == items_of(
                self.scores(),
                target@,
            ).last()),
    {
        match Self::score_pos(&self.scores, target) {
            None => None,
            Some(i) => {
                let list = &self.scores[i].1;
                if list.len() == 0 {
                    None
                } else {
                    Some(&list[list.len() - 1])
                }
            },
        }
    }

    /// The anomalies of a target, in the order recorded.
    pub fn anomalies_for(&self, target: &str) -> (r: Vec<&AnomalyRecord>)
        ensures
            r@.map_values(|x: &AnomalyRecord| *x) == items_of(self.anomalies(), target@),
    {
        let mut out: Vec<&AnomalyRecord> = Vec::new();
        match Self::anomaly_pos(&self.anomalies, target) {
            None => {
                assert(out@.map_values(|x: &AnomalyRecord| *x) =~= Seq::<AnomalyRecord>::empty());
            },
            Some(i) => {
                let list = &self.anomalies[i].1;
                let mut k: usize = 0;
                while k < list.len()
                    invariant
                        k <= list@.len(),
                        out@.len() == k,
                        forall|q: int| 0 <= q < k ==> *(#[trigger] out@[q]) == list@[q],
                    decreases list.len() - k,
                {
                    out.push(&list[k]);
                    k = k + 1;
                }
                assert(out@.map_values(|x: &AnomalyRecord| *x) =~= list@);
            },
        }
        out
    }

    /// The anomalies not yet reviewed, target by target.
    pub fn unreviewed_anomalies(&self) -> (r: Vec<&AnomalyRecord>)
        ensures
            r@.map_values(|x: &AnomalyRecord| *x) == unreviewed(self.anomalies()),
    {
        let ghost av = self.anomalies();
        let mut out: Vec<&AnomalyRecord> = Vec::new();
        let mut i: usize = 0;
        assert(av.subrange(0, 0) =~= Seq::<(Seq<char>, Seq<AnomalyRecord>)>::empty());
        assert(out@.map_values(|x: &AnomalyRecord| *x) =~= Seq::<AnomalyRecord>::empty());
        while i < self.anomalies.len()
            invariant
                i <= self.anomalies@.len(),
                av == anomaly_views(self.anomalies@),
                out@.map_values(|x: &AnomalyRecord| *x) == unreviewed(av.subrange(0, i as int)),
            decreases self.anomalies.len() - i,
        {
            assert(av.subrange(0, i + 1).drop_last() =~= av.subrange(0, i as int));
            let list = &self.anomalies[i].1;
            assert(av[i as int].1 == list@);
            let ghost b = out@.map_values(|x: &AnomalyRecord| *x);
            let mut k: usize = 0;
            assert(list@.subrange(0, 0) =~= Seq::<AnomalyRecord>::empty());
            assert(b =~= b + unreviewed_in(list@.subrange(0, 0)));
            while k < list.len()
                invariant
                    k <= list@.len(),
                    out@.map_values(|x: &AnomalyRecord| *x) == b + unreviewed_in(list@.subrange(0, k as int)),
                decreases list.len() - k,
            {
                assert(list@.subrange(0, k + 1).drop_last() =~= list@.subrange(0, k as int));
                let ghost o0 = out@;
                if !list[k].reviewed {
                    out.push(&list[k]);
                    assert(out@.map_values(|x: &AnomalyRecord| *x) =~= o0.map_values(|x: &AnomalyRecord| *x).push(list@[k as int]));
                }
                assert(out@.map_values(|x: &AnomalyRecord| *x) =~= b + unreviewed_in(list@.subrange(0, k + 1)));
                k = k + 1;
            }
            assert(list@.subrange(0, list@.len() as int) =~= list@);
            i = i + 1;
        }
        assert(av.subrange(0, av.len() as int) =~= av);
        out
    }

    /// The quality trend of a target.
    pub fn trend(&self, target: &str) -> (r: Trend)
        ensures
            r == trend_of(items_of(self.scores(), target@)),
    {
        match Self::score_pos(&self.scores, target) {
            None => Trend::Unknown,
            Some(i) => {
                let list = &self.scores[i].1;
                if list.len() < 2 {
                    return Trend::Unknown;
                }
                let recent = list[list.len() - 1].score as i16;
                let previous = list[list.len() - 2].score as i16;
                let diff = recent - previous;
                if diff > 5 {
                    Trend::Improving
                } else if diff < -5 {
                    Trend::Degrading
                } else {
                    Trend::Stable
                }
            },
        }
    }

    /// Total number of anomalies.
    pub fn anomaly_count(&self) -> (r: usize)
        requires
            total_items(self.anomalies()) <= usize::MAX,
        ensures
            r == total_items(self.anomalies()),
    {
        let ghost av = self.anomalies();
        let mut n: usize = 0;
        let mut i: usize = 0;
        while i < self.anomalies.len()
            invariant
                i <= self.anomalies@.len(),
                av == anomaly_views(self.anomalies@),
                total_items(av) <= usize::MAX,
                n == total_items(av.subrange(0, i as int)),
            decreases self.anomalies.len() - i,
        {
            assert(av.subrange(0, i + 1).drop_last() =~= av.subrange(0, i as int));
            proof {
                lemma_total_prefix(av, i + 1);
            }
            n = n + self.anomalies[i].1.len();
            i = i + 1;
        }
        assert(av.subrange(0, av.len() as int) =~= av);
        n
    }

    /// Total number of quarantined records.
    pub fn quarantined_count(&self) -> (r: usize)
        ensures
            r == self.quarantined().len(),
    {
        self.quarantined.len()
    }
}

proof fn lemma_total_prefix<A>(s: Seq<(Seq<char>, Seq<A>)>, k: int)
    requires
        0 <= k <= s.len(),
    ensures
        total_items(s.subrange(0, k)) <= total_items(s),
    decreases s.len(),
{
    if k < s.len() {
        lemma_total_prefix(s.drop_last(), k);
        assert(s.drop_last().subrange(0, k) =~= s.subrange(0, k));
    } else {
        assert(s.subrange(0, k) =~= s);
    }
}

impl Default for QualityIndex {
    fn default() -> (r: QualityIndex)
        ensures
            r.scores().len() == 0,
            r.anomalies().len() == 0,
            r.quarantined().len() == 0,
    {
        QualityIndex::new()
    }
}

} // verus!
