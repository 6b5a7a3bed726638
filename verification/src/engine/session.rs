//! Session management: data operations grouped per user or agent session.
use vstd::prelude::*;
use vstd::string::StringExecFns;
use crate::text::{str_eq, string_of, decimal, decimal_exec};
use crate::types::now_micros;
use crate::types::record::new_uuid;

verus! {

/// Types of session operations.
#[derive(Debug, Clone, Copy, PartialEq, Eq, Structural)]
pub enum OpType {
    Ingest,
    Query,
    Transform,
    QualityCheck,
    PiiScan,
    Export,
    SchemaInfer,
}

/// A recorded operation within a session.
#[derive(Debug, Clone)]
pub struct SessionOp {
    pub op_type: OpType,
    pub target: String,
    pub timestamp: u64,
    pub details: String,
}

/// A data session: the operations of one user, with counters.
#[derive(Debug, Clone)]
pub struct DataSession {
    pub id: String,
    pub user: String,
    pub started_at: u64,
    pub ended_at: Option<u64>,
    pub operations: Vec<SessionOp>,
    pub sources_touched: Vec<String>,
    pub records_created: u64,
    pub records_modified: u64,
    pub queries_executed: u64,
}

/// An operation as plain data.
pub struct OpView {
    pub op_type: OpType,
    pub target: Seq<char>,
    pub timestamp: u64,
    pub details: Seq<char>,
}

/// A session as plain data.
pub struct SessionView {
    pub id: Seq<char>,
    pub user: Seq<char>,
    pub started_at: u64,
    pub ended_at: Option<u64>,
    pub operations: Seq<OpView>,
    pub sources_touched: Seq<Seq<char>>,
    pub records_created: u64,
    pub records_modified: u64,
    pub queries_executed: u64,
}

/// View of an operation.
pub open spec fn op_view(o: SessionOp) -> OpView {
    OpView { op_type: o.op_type, target: o.target@, timestamp: o.timestamp, details: o.details@ }
}

/// View of a session.
pub open spec fn session_view(s: DataSession) -> SessionView {
    SessionView {
        id: s.id@,
        user: s.user@,
        started_at: s.started_at,
        ended_at: s.ended_at,
        operations: s.operations@.map_values(|o: SessionOp| op_view(o)),
        sources_touched: s.sources_touched@.map_values(|t: String| t@),
        records_created: s.records_created,
        records_modified: s.records_modified,
        queries_executed: s.queries_executed,
    }
}

/// Views of sessions.
pub open spec fn session_views(s: Seq<DataSession>) -> Seq<SessionView> {
    s.map_values(|x: DataSession| session_view(x))
}

/// A fresh session of `user` with id `id`, started at `t`.
pub open spec fn fresh_session(id: Seq<char>, user: Seq<char>, t: u64) -> SessionView {
    SessionView {
        id,
        user,
        started_at: t,
        ended_at: None,
        operations: Seq::empty(),
        sources_touched: Seq::empty(),
        records_created: 0,
        records_modified: 0,
        queries_executed: 0,
    }
}

/// A session after an operation is recorded: the operation is appended, an ingest
/// counts a created record, a query counts a query, and the target joins the
/// touched sources unless it is there already.
pub open spec fn with_op(s: SessionView, op: OpView) -> SessionView {
    SessionView {
        id: s.id,
        user: s.user,
        started_at: s.started_at,
        ended_at: s.ended_at,
        operations: s.operations.push(op),
        sources_touched: if s.sources_touched.contains(op.target) {
            s.sources_touched
        } else {
            s.sources_touched.push(op.target)
        },
        records_created: if op.op_type == OpType::Ingest {
            (s.records_created + 1) as u64
        } else {
            s.records_created
        },
        records_modified: s.records_modified,
        queries_executed: if op.op_type == OpType::Query {
            (s.queries_executed + 1) as u64
        } else {
            s.queries_executed
        },
    }
}

/// A session ended at `t`.
pub open spec fn ended_at(s: SessionView, t: u64) -> SessionView {
    SessionView {
        id: s.id,
        user: s.user,
        started_at: s.started_at,
        ended_at: Some(t),
        operations: s.operations,
        sources_touched: s.sources_touched,
        records_created: s.records_created,
        records_modified: s.records_modified,
        queries_executed: s.queries_executed,
    }
}

/// Position of the session with id `id`.
pub open spec fn session_index(s: Seq<SessionView>, id: Seq<char>) -> Option<int> {
    if exists|i: int| 0 <= i < s.len() && s[i].id == id {
        Some(choose|i: int| 0 <= i < s.len() && s[i].id == id)
    } else {
        None
    }
}

/// No id occurs twice.
pub open spec fn ids_unique(s: Seq<SessionView>) -> bool {
    forall|i: int, j: int| 0 <= i < j < s.len() ==> s[i].id != s[j].id
}

/// Storing a session under its id: one with that id is replaced in place, a new id
/// goes at the end.
pub open spec fn upsert_session(s: Seq<SessionView>, e: SessionView) -> Seq<SessionView> {
    match session_index(s, e.id) {
        Some(i) => s.update(i, e),
        None => s.push(e),
    }
}

/// The completed sessions of a user, in the order in which they ended.
pub open spec fn history_of(s: Seq<SessionView>, user: Seq<char>) -> Seq<SessionView>
    decreases s.len(),
{
    if s.len() == 0 {
        Seq::empty()
    } else if s.last().user == user {
        history_of(s.drop_last(), user).push(s.last())
    } else {
        history_of(s.drop_last(), user)
    }
}

/// An operation of the given parts.
pub open spec fn op_entry(op_type: OpType, target: Seq<char>, timestamp: u64, details: Seq<char>) -> OpView {
    OpView { op_type, target, timestamp, details }
}

/// The name of an operation type, as `Debug` writes it.
pub open spec fn op_type_name(t: OpType) -> Seq<char> {
    match t {
        OpType::Ingest => "Ingest"@,
        OpType::Query => "Query"@,
        OpType::Transform => "Transform"@,
        OpType::QualityCheck => "QualityCheck"@,
        OpType::PiiScan => "PiiScan"@,
        OpType::Export => "Export"@,
        OpType::SchemaInfer => "SchemaInfer"@,
    }
}

/// `<type> on <target>`.
pub open spec fn op_text(o: OpView) -> Seq<char> {
    op_type_name(o.op_type) + " on "@ + o.target
}

/// The texts of the last three operations (fewer if there are fewer), latest first.
pub open spec fn recent_ops(ops: Seq<OpView>) -> Seq<Seq<char>> {
    let n = if ops.len() < 3 {
        ops.len() as int
    } else {
        3
    };
    Seq::new(n as nat, |k: int| op_text(ops[ops.len() - 1 - k]))
}

/// The parts joined with `sep` between them.
pub open spec fn join(parts: Seq<Seq<char>>, sep: Seq<char>) -> Seq<char>
    decreases parts.len(),
{
    if parts.len() == 0 {
        Seq::empty()
    } else if parts.len() == 1 {
        parts[0]
    } else {
        join(parts.drop_last(), sep) + sep + parts.last()
    }
}

/// What a user was doing in a session: its counts and its latest operations.
pub open spec fn context_text(s: SessionView) -> Seq<char> {
    "Last session: "@ + decimal(s.operations.len()) + " operations ("@ + decimal(
        s.sources_touched.len(),
    ) + " sources). Recent: "@ + join(recent_ops(s.operations), ", "@)
}

/// The one-line summary of a session.
pub open spec fn summary_text(s: SessionView) -> Seq<char> {
    s.user + ": "@ + decimal(s.operations.len()) + " ops, "@ + decimal(s.sources_touched.len())
        + " sources, "@ + decimal(s.records_created as nat) + " records created, "@ + decimal(
        s.queries_executed as nat,
    ) + " queries"@
}

/// Milliseconds from `start` to `end` (0 when `end` is earlier).
pub open spec fn elapsed_ms(end: u64, start: u64) -> u64 {
    if end >= start {
        ((end - start) / 1000) as u64
    } else {
        0
    }
}

/// Session manager: the active sessions and the completed ones.
pub struct SessionManager {
    /// Active sessions, each id once, in the order in which they started.
    active: Vec<DataSession>,
    /// Completed sessions, in the order in which they ended.
    completed: Vec<DataSession>,
    /// The calls made so far, in order.
    calls: Ghost<Seq<SessionCall>>,
}

impl SessionManager {
    /// The active sessions.
    pub closed spec fn active(&self) -> Seq<SessionView> {
        session_views(self.active@)
    }

    /// The completed sessions.
    pub closed spec fn completed(&self) -> Seq<SessionView> {
        session_views(self.completed@)
    }

    /// The calls made on the manager so far, in order: each start with the session
    /// it made, each recorded operation, each end with its time.
    pub closed spec fn calls(&self) -> Seq<SessionCall> {
        self.calls@
    }

    #[verifier::type_invariant]
    closed spec fn inv(self) -> bool {
        &&& ids_unique(session_views(self.active@))
        &&& session_run(self.calls@) == (session_views(self.active@), session_views(self.completed@))
    }

    /// A manager without sessions.
    pub fn new() -> (r: SessionManager)
        ensures
            r.active() == Seq::<SessionView>::empty(),
            r.completed() == Seq::<SessionView>::empty(),
            ids_unique(r.active()),
            r.calls() == Seq::<SessionCall>::empty(),
    {
        let active: Vec<DataSession> = Vec::new();
        let completed: Vec<DataSession> = Vec::new();
        assert(session_views(active@) =~= Seq::<SessionView>::empty());
        assert(session_views(completed@) =~= Seq::<SessionView>::empty());
        let r = SessionManager { active, completed, calls: Ghost(Seq::empty()) };
        assert(r.active() =~= Seq::<SessionView>::empty());
        assert(r.completed() =~= Seq::<SessionView>::empty());
        r
    }

    fn find(&self, id: &str) -> (r: Option<usize>)
        ensures
            match r {
                Some(i) => session_index(self.active(), id@) == Some(i as int) && i
                    < self.active@.len(),
                None => session_index(self.active(), id@) is None,
            },
    {
        proof {
            use_type_invariant(self);
        }
        Self::find_in(&self.active, id)
    }

    fn find_in(v: &Vec<DataSession>, id: &str) -> (r: Option<usize>)
        requires
            ids_unique(session_views(v@)),
        ensures
            match r {
                Some(i) => session_index(session_views(v@), id@) == Some(i as int) && i < v@.len(),
                None => session_index(session_views(v@), id@) is None,
            },
    {
        let ghost s = session_views(v@);
        let mut i: usize = 0;
        while i < v.len()
            invariant
                i <= v@.len(),
                s == session_views(v@),
                ids_unique(s),
                forall|k: int| 0 <= k < i ==> s[k].id != id@,
            decreases v.len() - i,
        {
            if str_eq(v[i].id.as_str(), id) {
                assert(s[i as int].id == id@);
                return Some(i);
            }
            i = i + 1;
        }
        None
    }

    /// Start a new session for `user`, under a fresh random id, and return the id.
    pub fn start(&mut self, user: &str) -> (r: String)
        ensures
            r@.len() == 36,
            exists|t: u64|
                final(self).active() == upsert_session(
                    old(self).active(),
                    #[trigger] fresh_session(r@, user@, t),
                ),
            final(self).completed() == old(self).completed(),
            ids_unique(final(self).active()),
            exists|t: u64|
                final(self).calls() == old(self).calls().push(
                    SessionCall::Start(#[trigger] fresh_session(r@, user@, t)),
                ),
            session_index(final(self).active(), r@) matches Some(i) && final(self).active()[i].id
                == r@ && final(self).active()[i].user == user@,
    {
        proof {
            use_type_invariant(&*self);
        }
        let id = new_uuid();
        let t = now_micros();
        let session = DataSession {
            id: id.clone(),
            user: user.to_owned(),
            started_at: t,
            ended_at: None,
            operations: Vec::new(),
            sources_touched: Vec::new(),
            records_created: 0,
            records_modified: 0,
            queries_executed: 0,
        };
        let ghost sv = session_view(session);
        assert(sv == fresh_session(id@, user@, t)) by {
            assert(sv.operations =~= Seq::<OpView>::empty());
            assert(sv.sources_touched =~= Seq::<Seq<char>>::empty());
        }
        let ghost a0 = self.active();
        let mut whole = SessionManager::new();
        std::mem::swap(&mut whole, self);
        let SessionManager { active, completed, calls } = whole;
        let mut active = active;
        let ghost c0 = calls@;
        match Self::find_in(&active, id.as_str()) {
            Some(i) => {
                active.set(i, session);
                assert(session_views(active@) =~= a0.update(i as int, sv));
            },
            None => {
                active.push(session);
                assert(session_views(active@) =~= a0.push(sv));
            },
        }
        let ghost c1 = c0.push(SessionCall::Start(sv));
        assert(c1.drop_last() =~= c0);
        proof {
            lemma_started_session_active(a0, sv);
        }
        *self = SessionManager { active, completed, calls: Ghost(c1) };
        proof {
            use_type_invariant(&*self);
        }
        id
    }
}

impl SessionManager {
    /// Record an operation in an active session (nothing happens for an unknown id).
    pub fn record_op(&mut self, session_id: &str, op_type: OpType, target: &str, details: &str)
        requires
            session_index(old(self).active(), session_id@) matches Some(i) ==> (op_type
                == OpType::Ingest ==> old(self).active()[i].records_created < u64::MAX) && (
            op_type == OpType::Query ==> old(self).active()[i].queries_executed < u64::MAX),
        ensures
            final(self).completed() == old(self).completed(),
            match session_index(old(self).active(), session_id@) {
                Some(i) => exists|t: u64|
                    final(self).active() == old(self).active().update(
                        i,
                        #[trigger] with_op(
                            old(self).active()[i],
                            op_entry(op_type, target@, t, details@),
                        ),
                    ),
                None => final(self).active() == old(self).active(),
            },
            ids_unique(final(self).active()),
            exists|t: u64|
                final(self).calls() == old(self).calls().push(
                    SessionCall::Record(session_id@, #[trigger] op_entry(op_type, target@, t, details@)),
                ),
    {
        proof {
            use_type_invariant(&*self);
        }
        let ghost op0 = op_entry(op_type, target@, 0, details@);
        let i = match self.find(session_id) {
            Some(i) => i,
            None => {
                let ghost c1 = self.calls@.push(SessionCall::Record(session_id@, op0));
                assert(c1.drop_last() =~= self.calls@);
                self.calls = Ghost(c1);
                return ;
            },
        };
        let ghost a0 = self.active();
        let mut whole = SessionManager::new();
        std::mem::swap(&mut whole, self);
        let SessionManager { active, completed, calls } = whole;
        let mut active = active;
        let ghost c0 = calls@;
        let ghost v0 = active@;
        let mut s = active.remove(i);
        let ghost s0 = session_view(s);
        let t = now_micros();
        let op = SessionOp {
            op_type,
            target: target.to_owned(),
            timestamp: t,
            details: details.to_owned(),
        };
        let ghost ov = op_view(op);
        s.operations.push(op);
        match op_type {
            OpType::Ingest => {
                s.records_created = s.records_created + 1;
            },
            OpType::Query => {
                s.queries_executed = s.queries_executed + 1;
            },
            _ => {},
        }
        let mut seen = false;
        let mut k: usize = 0;
        while k < s.sources_touched.len()
            invariant
                k <= s.sources_touched@.len(),
                seen == (exists|m: int| 0 <= m < k && s.sources_touched@[m]@ == target@),
            decreases s.sources_touched.len() - k,
        {
            if str_eq(s.sources_touched[k].as_str(), target) {
                seen = true;
            }
            k = k + 1;
        }
        let ghost tv = s0.sources_touched;
        assert(tv == s.sources_touched@.map_values(|x: String| x@));
        assert(seen == tv.contains(target@)) by {
            if seen {
                let m = choose|m: int| 0 <= m < k && s.sources_touched@[m]@ == target@;
                assert(tv[m] == target@);
            }
        }
        if !seen {
            s.sources_touched.push(target.to_owned());
        }
        proof {
            assert(ov == op_entry(op_type, target@, t, details@));
            let sv = session_view(s);
            assert(sv.operations =~= s0.operations.push(ov));
            assert(sv.sources_touched =~= with_op(s0, ov).sources_touched);
            assert(sv == with_op(s0, ov));
        }
        let ghost sv = session_view(s);
        active.insert(i, s);
        assert(active@ =~= v0.update(i as int, active@[i as int]));
        assert(session_views(active@) =~= a0.update(i as int, sv));
        let ghost c1 = c0.push(SessionCall::Record(session_id@, ov));
        assert(c1.drop_last() =~= c0);
        proof {
            let u = a0.update(i as int, sv);
            assert forall|x: int, y: int| 0 <= x < y < u.len() implies u[x].id != u[y].id by {
                assert(u[x].id == a0[x].id);
                assert(u[y].id == a0[y].id);
            }
        }
        *self = SessionManager { active, completed, calls: Ghost(c1) };
        proof {
            use_type_invariant(&*self);
        }
    }

    /// End a session: it leaves the active sessions, takes the current time as its end
    /// and joins the completed ones; the ended session is returned.
    pub fn end(&mut self, session_id: &str) -> (r: Option<&DataSession>)
        ensures
            session_index(old(self).active(), session_id@) matches Some(i) ==> final(self).active()
                == old(self).active().remove(i),
            session_index(old(self).active(), session_id@) matches Some(i) ==> exists|t: u64|
                final(self).completed() == old(self).completed().push(
                    #[trigger] ended_at(old(self).active()[i], t),
                ),
            session_index(old(self).active(), session_id@) is Some ==> (r matches Some(s)
                && session_view(*s) == final(self).completed().last()),
            session_index(old(self).active(), session_id@) is None ==> r is None
                && final(self).active() == old(self).active() && final(self).completed() == old(
                self,
            ).completed(),
            ids_unique(final(self).active()),
            exists|t: u64| final(self).calls() == #[trigger] old(self).calls().push(SessionCall::End(session_id@, t)),
    {
        proof {
            use_type_invariant(&*self);
        }
        let i = match self.find(session_id) {
            Some(i) => i,
            None => {
                let ghost k1 = self.calls@.push(SessionCall::End(session_id@, 0));
                assert(k1.drop_last() =~= self.calls@);
                self.calls = Ghost(k1);
                assert(self.calls() == old(self).calls().push(SessionCall::End(session_id@, 0)));
                return None;
            },
        };
        let ghost a0 = self.active();
        let ghost c0 = self.completed();
        let mut whole = SessionManager::new();
        std::mem::swap(&mut whole, self);
        let SessionManager { active, completed, calls } = whole;
        let mut active = active;
        let mut completed = completed;
        let ghost k0 = calls@;
        let ghost v0 = active@;
        let mut s = active.remove(i);
        let ghost s0 = session_view(s);
        assert(s0 == a0[i as int]);
        let t = now_micros();
        s.ended_at = Some(t);
        assert(session_view(s) == ended_at(s0, t));
        assert(session_views(active@) =~= a0.remove(i as int));
        proof {
            assert forall|x: int, y: int|
                0 <= x < y < session_views(active@).len() implies session_views(active@)[x].id
                != session_views(active@)[y].id by {
                let xx = if x < i { x } else { x + 1 };
                let yy = if y < i { y } else { y + 1 };
                assert(a0[xx].id != a0[yy].id);
            }
        }
        completed.push(s);
        assert(session_views(completed@) =~= c0.push(ended_at(s0, t)));
        let ghost k1 = k0.push(SessionCall::End(session_id@, t));
        assert(k1.drop_last() =~= k0);
        *self = SessionManager { active, completed, calls: Ghost(k1) };
        assert(self.calls() == old(self).calls().push(SessionCall::End(session_id@, t)));
        proof {
            use_type_invariant(&*self);
        }
        let n = self.completed.len();
        assert(self.completed() == c0.push(ended_at(a0[i as int], t)));
        assert(session_view(self.completed@[n - 1]) == self.completed().last());
        Some(&self.completed[n - 1])
    }

    /// The active session with that id.
    pub fn get_active(&self, session_id: &str) -> (r: Option<&DataSession>)
        ensures
            match session_index(self.active(), session_id@) {
                Some(i) => r matches Some(s) && session_view(*s) == self.active()[i],
                None => r is None,
            },
    {
        match self.find(session_id) {
            Some(i) => Some(&self.active[i]),
            None => None,
        }
    }

    /// The ids of the active sessions.
    pub fn active_sessions(&self) -> (r: Vec<&str>)
        ensures
            r@.len() == self.active().len(),
            forall|i: int| 0 <= i < r@.len() ==> (#[trigger] r@[i])@ == self.active()[i].id,
    {
        let mut out: Vec<&str> = Vec::new();
        let mut i: usize = 0;
        while i < self.active.len()
            invariant
                i <= self.active@.len(),
                out@.len() == i,
                forall|k: int| 0 <= k < i ==> (#[trigger] out@[k])@ == self.active()[k].id,
            decreases self.active.len() - i,
        {
            out.push(self.active[i].id.as_str());
            i = i + 1;
        }
        out
    }

    /// Count of active sessions: with the completed ones, as many as the starts of a
    /// fresh id so far.
    pub fn active_count(&self) -> (r: usize)
        ensures
            r == self.active().len(),
            r + self.completed().len() == fresh_starts(self.calls()),
    {
        proof {
            use_type_invariant(self);
            lemma_session_counts(self.calls());
        }
        self.active.len()
    }

    /// Count of completed sessions: as many as the ends of an active session so far.
    pub fn completed_count(&self) -> (r: usize)
        ensures
            r == self.completed().len(),
            r == sessions_ended(self.calls()),
    {
        proof {
            use_type_invariant(self);
            lemma_session_counts(self.calls());
        }
        self.completed.len()
    }

    /// The completed sessions of a user, in the order in which they ended.
    pub fn user_history(&self, user: &str) -> (r: Vec<&DataSession>)
        ensures
            r@.map_values(|s: &DataSession| session_view(*s)) == history_of(self.completed(), user@),
    {
        let ghost c = self.completed();
        let mut out: Vec<&DataSession> = Vec::new();
        let mut i: usize = 0;
        assert(out@.map_values(|s: &DataSession| session_view(*s)) =~= Seq::<SessionView>::empty());
        while i < self.completed.len()
            invariant
                i <= self.completed@.len(),
                c == self.completed(),
                out@.map_values(|s: &DataSession| session_view(*s)) == history_of(
                    c.subrange(0, i as int),
                    user@,
                ),
            decreases self.completed.len() - i,
        {
            assert(c.subrange(0, i + 1).drop_last() =~= c.subrange(0, i as int));
            assert(c[i as int] == session_view(self.completed@[i as int]));
            let ghost before = out@;
            if str_eq(self.completed[i].user.as_str(), user) {
                out.push(&self.completed[i]);
                assert(out@.map_values(|s: &DataSession| session_view(*s)) =~= before.map_values(
                    |s: &DataSession| session_view(*s),
                ).push(c[i as int]));
            }
            i = i + 1;
        }
        assert(c.subrange(0, c.len() as int) =~= c);
        out
    }

    /// What the user was doing last: the counts and the latest operations of the
    /// user's last completed session, or `None` when there is none.
    pub fn resume_context(&self, user: &str) -> (r: Option<String>)
        ensures
            match r {
                Some(t) => history_of(self.completed(), user@).len() > 0 && t@ == context_text(
                    history_of(self.completed(), user@).last(),
                ),
                None => history_of(self.completed(), user@).len() == 0,
            },
    {
        let history = self.user_history(user);
        let ghost h = history_of(self.completed(), user@);
        assert(history@.len() == h.len());
        if history.len() == 0 {
            return None;
        }
        let last: &DataSession = history[history.len() - 1];
        assert(session_view(*last) == h.last());
        Some(last.context())
    }
}

impl DataSession {
    /// The `resume_context` text of this session.
    fn context(&self) -> (r: String)
        ensures
            r@ == context_text(session_view(*self)),
    {
        let ghost sv = session_view(*self);
        let ghost ops = sv.operations;
        let n = self.operations.len();
        let mut recent: Vec<char> = Vec::new();
        let count: usize = if n < 3 {
            n
        } else {
            3
        };
        let ghost parts = recent_ops(ops);
        let mut k: usize = 0;
        while k < count
            invariant
                k <= count <= 3,
                count as int == parts.len(),
                n == ops.len(),
                n == self.operations@.len(),
                parts == recent_ops(ops),
                ops == self.operations@.map_values(|o: SessionOp| op_view(o)),
                recent@ == join(parts.subrange(0, k as int), ", "@),
            decreases count - k,
        {
            let op = &self.operations[n - 1 - k];
            assert(ops[n - 1 - k] == op_view(*op));
            let ghost before = recent@;
            if k > 0 {
                crate::text::push_all(&mut recent, &crate::text::chars_of(", "));
            }
            crate::text::push_all(&mut recent, &crate::text::chars_of(op_type_str(op.op_type)));
            crate::text::push_all(&mut recent, &crate::text::chars_of(" on "));
            crate::text::push_all(&mut recent, &crate::text::chars_of(op.target.as_str()));
            proof {
                let sub = parts.subrange(0, k + 1);
                assert(sub.drop_last() =~= parts.subrange(0, k as int));
                assert(sub.last() == op_text(op_view(*op)));
                if k == 0 {
                    assert(recent@ =~= sub[0]);
                } else {
                    assert(recent@ =~= before + ", "@ + sub.last());
                }
            }
            k = k + 1;
        }
        assert(parts.subrange(0, parts.len() as int) =~= parts);
        let mut out: Vec<char> = crate::text::chars_of("Last session: ");
        crate::text::push_all(&mut out, &decimal_exec(n as u128));
        crate::text::push_all(&mut out, &crate::text::chars_of(" operations ("));
        crate::text::push_all(&mut out, &decimal_exec(self.sources_touched.len() as u128));
        crate::text::push_all(&mut out, &crate::text::chars_of(" sources). Recent: "));
        crate::text::push_all(&mut out, &recent);
        assert(sv.sources_touched.len() == self.sources_touched@.len());
        assert(out@ =~= context_text(sv));
        string_of(&out)
    }

    /// Duration in milliseconds from the start to the end of the session (0 if still
    /// active, or if the end reads earlier than the start).
    pub fn duration_ms(&self) -> (r: u64)
        ensures
            match self.ended_at {
                Some(e) => r == elapsed_ms(e, self.started_at),
                None => r == 0,
            },
    {
        match self.ended_at {
            Some(end) => {
                if end >= self.started_at {
                    (end - self.started_at) / 1000
                } else {
                    0
                }
            },
            None => 0,
        }
    }

    /// Summary string: user, operation and source counts, records created, queries.
    pub fn summary(&self) -> (r: String)
        ensures
            r@ == summary_text(session_view(*self)),
    {
        let mut out: Vec<char> = crate::text::chars_of(self.user.as_str());
        crate::text::push_all(&mut out, &crate::text::chars_of(": "));
        crate::text::push_all(&mut out, &decimal_exec(self.operations.len() as u128));
        crate::text::push_all(&mut out, &crate::text::chars_of(" ops, "));
        crate::text::push_all(&mut out, &decimal_exec(self.sources_touched.len() as u128));
        crate::text::push_all(&mut out, &crate::text::chars_of(" sources, "));
        crate::text::push_all(&mut out, &decimal_exec(self.records_created as u128));
        crate::text::push_all(&mut out, &crate::text::chars_of(" records created, "));
        crate::text::push_all(&mut out, &decimal_exec(self.queries_executed as u128));
        crate::text::push_all(&mut out, &crate::text::chars_of(" queries"));
        assert(out@ =~= summary_text(session_view(*self)));
        string_of(&out)
    }
}

/// The name of an operation type, as `Debug` writes it.
fn op_type_str(t: OpType) -> (r: &'static str)
    ensures
        r@ == op_type_name(t),
{
    match t {
        OpType::Ingest => "Ingest",
        OpType::Query => "Query",
        OpType::Transform => "Transform",
        OpType::QualityCheck => "QualityCheck",
        OpType::PiiScan => "PiiScan",
        OpType::Export => "Export",
        OpType::SchemaInfer => "SchemaInfer",
    }
}

impl Default for SessionManager {
    fn default() -> (r: SessionManager)
        ensures
            r.active() == Seq::<SessionView>::empty(),
            r.completed() == Seq::<SessionView>::empty(),
            ids_unique(r.active()),
            r.calls() == Seq::<SessionCall>::empty(),
    {
        SessionManager::new()
    }
}

proof fn lemma_session_index_unique(s: Seq<SessionView>, i: int)
    requires
        ids_unique(s),
        0 <= i < s.len(),
    ensures
        session_index(s, s[i].id) == Some(i),
{
}

/// A started session is active under its id, as started; the count of active
/// sessions grows by one unless the id was taken.
pub proof fn lemma_started_session_active(a: Seq<SessionView>, e: SessionView)
    requires
        ids_unique(a),
    ensures
        session_index(upsert_session(a, e), e.id) matches Some(i) && upsert_session(a, e)[i] == e,
        upsert_session(a, e).len() == a.len() + (if session_index(a, e.id) is None {
            1int
        } else {
            0int
        }),
        ids_unique(upsert_session(a, e)),
{
    let u = upsert_session(a, e);
    match session_index(a, e.id) {
        Some(i) => {
            lemma_session_index_unique(u, i);
        },
        None => {
            lemma_session_index_unique(u, a.len() as int);
        },
    }
}

/// Ending a session takes it out of the active sessions and appends it, ended, to
/// its user's history.
pub proof fn lemma_end_moves_session(
    a: Seq<SessionView>,
    c: Seq<SessionView>,
    id: Seq<char>,
    t: u64,
)
    requires
        ids_unique(a),
        session_index(a, id) is Some,
    ensures
        ({
            let i = session_index(a, id)->0;
            &&& session_index(a.remove(i), id) is None
            &&& a.remove(i).len() + 1 == a.len()
            &&& history_of(c.push(ended_at(a[i], t)), a[i].user) == history_of(c, a[i].user).push(
                ended_at(a[i], t),
            )
        }),
{
    let i = session_index(a, id)->0;
    let r = a.remove(i);
    if exists|j: int| 0 <= j < r.len() && r[j].id == id {
        let j = choose|j: int| 0 <= j < r.len() && r[j].id == id;
        if j < i {
            assert(r[j] == a[j]);
        } else {
            assert(r[j] == a[j + 1]);
        }
    }
    assert(c.push(ended_at(a[i], t)).drop_last() =~= c);
}

/// A call on a session manager, with what it used that is not an argument: a start
/// with the session it made, an operation recorded under an id, and the end of an id
/// at a time.
pub enum SessionCall {
    Start(SessionView),
    Record(Seq<char>, OpView),
    End(Seq<char>, u64),
}

/// The active and completed sessions after one call, as the methods' contracts give
/// them.
pub open spec fn session_step(st: (Seq<SessionView>, Seq<SessionView>), call: SessionCall) -> (
    Seq<SessionView>,
    Seq<SessionView>,
) {
    let (a, c) = st;
    match call {
        SessionCall::Start(e) => (upsert_session(a, e), c),
        SessionCall::Record(id, op) => match session_index(a, id) {
            Some(i) => (a.update(i, with_op(a[i], op)), c),
            None => (a, c),
        },
        SessionCall::End(id, t) => match session_index(a, id) {
            Some(i) => (a.remove(i), c.push(ended_at(a[i], t))),
            None => (a, c),
        },
    }
}

/// The active and completed sessions after the calls, on a new manager.
pub open spec fn session_run(calls: Seq<SessionCall>) -> (Seq<SessionView>, Seq<SessionView>)
    decreases calls.len(),
{
    if calls.len() == 0 {
        (Seq::empty(), Seq::empty())
    } else {
        session_step(session_run(calls.drop_last()), calls.last())
    }
}

/// The number of starts whose id was not active when they were made.
pub open spec fn fresh_starts(calls: Seq<SessionCall>) -> nat
    decreases calls.len(),
{
    if calls.len() == 0 {
        0
    } else {
        fresh_starts(calls.drop_last()) + match calls.last() {
            SessionCall::Start(e) => if session_index(session_run(calls.drop_last()).0, e.id) is None {
                1nat
            } else {
                0nat
            },
            _ => 0nat,
        }
    }
}

/// The number of ends of an active session.
pub open spec fn sessions_ended(calls: Seq<SessionCall>) -> nat
    decreases calls.len(),
{
    if calls.len() == 0 {
        0
    } else {
        sessions_ended(calls.drop_last()) + match calls.last() {
            SessionCall::End(id, _) => if session_index(session_run(calls.drop_last()).0, id) is Some {
                1nat
            } else {
                0nat
            },
            _ => 0nat,
        }
    }
}

/// Over any calls on a new manager: each active id occurs once; the active and the
/// completed sessions together number the starts of a fresh id; the completed ones
/// number the ends of an active session; and the completed sessions only grow, each
/// call keeping those before it.
pub proof fn lemma_session_counts(calls: Seq<SessionCall>)
    ensures
        ids_unique(session_run(calls).0),
        session_run(calls).0.len() + session_run(calls).1.len() == fresh_starts(calls),
        session_run(calls).1.len() == sessions_ended(calls),
        calls.len() > 0 ==> session_run(calls).1.subrange(
            0,
            session_run(calls.drop_last()).1.len() as int,
        ) == session_run(calls.drop_last()).1,
    decreases calls.len(),
{
    if calls.len() > 0 {
        let pre = calls.drop_last();
        lemma_session_counts(pre);
        let (a, c) = session_run(pre);
        match calls.last() {
            SessionCall::Start(e) => {
                lemma_started_session_active(a, e);
            },
            SessionCall::Record(id, op) => {
                match session_index(a, id) {
                    Some(i) => {
                        let u = a.update(i, with_op(a[i], op));
                        assert forall|x: int, y: int| 0 <= x < y < u.len() implies u[x].id != u[y].id by {
                            assert(u[x].id == a[x].id);
                            assert(u[y].id == a[y].id);
                        }
                    },
                    None => {},
                }
            },
            SessionCall::End(id, t) => {
                match session_index(a, id) {
                    Some(i) => {
                        lemma_end_moves_session(a, c, id, t);
                        let r = a.remove(i);
                        assert forall|x: int, y: int| 0 <= x < y < r.len() implies r[x].id != r[y].id by {
                            let xx = if x < i { x } else { x + 1 };
                            let yy = if y < i { y } else { y + 1 };
                            assert(r[x] == a[xx]);
                            assert(r[y] == a[yy]);
                        }
                    },
                    None => {},
                }
            },
        }
        assert(session_run(calls).1.subrange(0, c.len() as int) =~= c);
    }
}

} // verus!
