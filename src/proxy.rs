use vstd::prelude::*;

use crate::matcher::{matcher_matches, Matcher, MatcherView};
use crate::protocol::{
    flag_bit, lemma_reply_round_trip, lemma_reply_wf, message_at, message_bytes, record_views, records_wf,
    reply_of, text_of, Message, MessageView, ParseError, Record, RecordView,
};

verus! {

pub struct RuleView {
    pub matcher: MatcherView,
    pub records: Seq<RecordView>,
}

/// A rule of the table: a matcher, and the records that answer a query whose name it accepts.
/// The records are well formed, so that a reply that carries them can be encoded.
pub struct Rule {
    matcher: Matcher,
    records: Vec<Record>,
}

impl View for Rule {
    type V = RuleView;

    closed spec fn view(&self) -> RuleView {
        RuleView { matcher: self.matcher@, records: record_views(self.records@) }
    }
}

impl Rule {
    #[verifier::type_invariant]
    spec fn inv(&self) -> bool {
        records_wf(record_views(self.records@))
    }

    /// The rule, if there are at most 65535 records and each is well formed.
    pub fn new(matcher: Matcher, records: Vec<Record>) -> (r: Option<Rule>)
        ensures
            r is Some <==> records_wf(record_views(records@)),
            r is Some ==> r->Some_0@ == (RuleView {
                matcher: matcher@,
                records: record_views(records@),
            }),
    {
        if records.len() > 65535 {
            return None;
        }
        let mut i: usize = 0;
        while i < records.len()
            invariant
                i <= records@.len(),
                records@.len() <= 65535,
                forall|k: int|
                    0 <= k < i ==> crate::protocol::record_wf(#[trigger] record_views(records@)[k]),
            decreases records@.len() - i,
        {
            if !records[i].is_well_formed() {
                assert(record_views(records@)[i as int] == records@[i as int]@);
                return None;
            }
            assert(record_views(records@)[i as int] == records@[i as int]@);
            i = i + 1;
        }
        Some(Rule { matcher, records })
    }
}

/// The first rule from `i` on whose matcher accepts `name`.
pub open spec fn first_from(rules: Seq<RuleView>, name: Seq<u8>, i: int) -> Option<int>
    decreases rules.len() - i,
{
    if i < 0 || i >= rules.len() {
        None
    } else if matcher_matches(rules[i].matcher, name) {
        Some(i)
    } else {
        first_from(rules, name, i + 1)
    }
}

/// The rule that answers query `q`: the first whose matcher accepts the text of the name of
/// its first question. A query without questions matches no rule.
pub open spec fn rule_for(rules: Seq<RuleView>, q: MessageView) -> Option<int> {
    if q.questions.len() == 0 {
        None
    } else {
        first_from(rules, text_of(q.questions[0].name), 0)
    }
}

pub proof fn lemma_first_from(rules: Seq<RuleView>, name: Seq<u8>, i: int)
    requires
        0 <= i,
    ensures
        first_from(rules, name, i) matches Some(k) ==> i <= k < rules.len() && matcher_matches(
            rules[k].matcher,
            name,
        ) && forall|j: int| i <= j < k ==> !matcher_matches(#[trigger] rules[j].matcher, name),
        first_from(rules, name, i) is None ==> forall|j: int|
            i <= j < rules.len() ==> !matcher_matches(#[trigger] rules[j].matcher, name),
    decreases rules.len() - i,
{
    if i < rules.len() && !matcher_matches(rules[i].matcher, name) {
        lemma_first_from(rules, name, i + 1);
    }
}

/// The ordered rules, built once and then only read.
pub struct RuleTable {
    rules: Vec<Rule>,
}

pub open spec fn rule_views(s: Seq<Rule>) -> Seq<RuleView> {
    s.map_values(|r: Rule| r@)
}

impl View for RuleTable {
    type V = Seq<RuleView>;

    closed spec fn view(&self) -> Seq<RuleView> {
        rule_views(self.rules@)
    }
}

impl RuleTable {
    pub fn new(rules: Vec<Rule>) -> (r: RuleTable)
        ensures
            r@ == rule_views(rules@),
    {
        RuleTable { rules }
    }

    pub fn len(&self) -> (r: usize)
        ensures
            r == self@.len(),
    {
        self.rules.len()
    }

    /// The index of the first rule whose matcher accepts `name`, given as text.
    pub fn lookup(&self, name: &[u8]) -> (r: Option<usize>)
        ensures
            match r {
                Some(i) => first_from(self@, name@, 0) == Some(i as int),
                None => first_from(self@, name@, 0) is None,
            },
    {
        let mut i: usize = 0;
        while i < self.rules.len()
            invariant
                i <= self.rules@.len(),
                first_from(self@, name@, 0) == first_from(self@, name@, i as int),
                self@ == rule_views(self.rules@),
            decreases self.rules@.len() - i,
        {
            assert(self@[i as int] == self.rules@[i as int]@);
            if self.rules[i].matcher.matches(name) {
                return Some(i);
            }
            i = i + 1;
        }
        None
    }

    /// The records that rule `i` answers with.
    pub fn records(&self, i: usize) -> (r: &Vec<Record>)
        requires
            i < self@.len(),
        ensures
            record_views(r@) == self@[i as int].records,
            records_wf(record_views(r@)),
    {
        let rule = &self.rules[i];
        proof {
            use_type_invariant(rule);
        }
        assert(self@[i as int] == self.rules@[i as int]@);
        &rule.records
    }
}

pub enum ActionView {
    Reply { bytes: Seq<u8> },
    Forward { bytes: Seq<u8> },
    Drop { error: ParseError },
}

/// What to do with one datagram that arrived from a client.
pub enum Action {
    /// Send these bytes back to the client: a reply made from a rule.
    Reply { bytes: Vec<u8> },
    /// Send these bytes to the upstream resolver and relay what it answers.
    Forward { bytes: Vec<u8> },
    /// Send nothing: the datagram is not a DNS message.
    Drop { error: ParseError },
}

impl View for Action {
    type V = ActionView;

    open spec fn view(&self) -> ActionView {
        match self {
            Action::Reply { bytes } => ActionView::Reply { bytes: bytes@ },
            Action::Forward { bytes } => ActionView::Forward { bytes: bytes@ },
            Action::Drop { error } => ActionView::Drop { error: *error },
        }
    }
}

/// The action for datagram `b` under `rules`: a query that does not decode is dropped with
/// its error; one that a rule answers gets the encoded local reply; any other is forwarded
/// as it came.
pub open spec fn query_action(rules: Seq<RuleView>, b: Seq<u8>) -> ActionView {
    match message_at(b) {
        Err(e) => ActionView::Drop { error: e },
        Ok(q) => match rule_for(rules, q) {
            Some(i) => ActionView::Reply { bytes: message_bytes(reply_of(q, rules[i].records)) },
            None => ActionView::Forward { bytes: b },
        },
    }
}

/// A copy of `b`.
pub fn copy_bytes(b: &[u8]) -> (r: Vec<u8>)
    ensures
        r@ == b@,
{
    let mut out: Vec<u8> = Vec::new();
    crate::protocol::push_bytes(&mut out, b);
    assert(out@ =~= b@);
    out
}

/// Decides what to do with the datagram `datagram` that a client sent.
pub fn handle_query(table: &RuleTable, datagram: &[u8]) -> (r: Action)
    ensures
        r@ == query_action(table@, datagram@),
{
    let query = match Message::parse(datagram) {
        Ok(q) => q,
        Err(e) => {
            return Action::Drop { error: e };
        },
    };
    let questions = query.questions();
    if questions.len() == 0 {
        return Action::Forward { bytes: copy_bytes(datagram) };
    }
    assert(questions@[0]@ == query@.questions[0]);
    let text = questions[0].name().to_text();
    assert(text@ == text_of(query@.questions[0].name));
    assert(message_at(datagram@) == Ok::<MessageView, ParseError>(query@));
    match table.lookup(text.as_slice()) {
        None => {
            assert(rule_for(table@, query@) is None);
            Action::Forward { bytes: copy_bytes(datagram) }
        },
        Some(i) => {
            assert(rule_for(table@, query@) == Some(i as int));
            proof {
                lemma_first_from(table@, text@, 0);
            }
            let records = table.records(i);
            let reply = Message::local_reply(&query, records);
            proof {
                lemma_reply_wf(query@, datagram@, record_views(records@));
            }
            assert(reply@ == reply_of(query@, table@[i as int].records));
            match reply.encode() {
                Some(bytes) => Action::Reply { bytes },
                None => Action::Drop { error: ParseError::Invalid },
            }
        },
    }
}

/// A reply made from a rule decodes to a message with the query's id, the reply bit set, the
/// query's questions, and the rule's records as its answers.
pub proof fn lemma_local_answer(rules: Seq<RuleView>, b: Seq<u8>)
    requires
        forall|i: int| 0 <= i < rules.len() ==> records_wf(#[trigger] rules[i].records),
        query_action(rules, b) is Reply,
    ensures
        ({
            let q = message_at(b)->Ok_0;
            let i = rule_for(rules, q)->Some_0;
            let m = message_at(query_action(rules, b)->Reply_bytes)->Ok_0;
            &&& message_at(query_action(rules, b)->Reply_bytes) is Ok
            &&& m.id == q.id
            &&& flag_bit(m.flags, 15)
            &&& m.questions == q.questions
            &&& m.answers == rules[i].records
            &&& m.authority.len() == 0
            &&& m.additional.len() == 0
        }),
{
    let q = message_at(b)->Ok_0;
    let i = rule_for(rules, q)->Some_0;
    lemma_first_from(rules, text_of(q.questions[0].name), 0);
    lemma_reply_round_trip(q, b, rules[i].records);
    let f = q.flags;
    assert(((f | 0x8000) >> 15) & 1 == 1) by (bit_vector);
}

/// What to send back to the client once the upstream resolver answered `reply`: the same
/// bytes, if they decode; the decoding error otherwise, and nothing is sent.
pub fn relay_reply(reply: &[u8]) -> (r: Result<Vec<u8>, ParseError>)
    ensures
        match message_at(reply@) {
            Ok(_) => r is Ok && r->Ok_0@ == reply@,
            Err(e) => r == Err::<Vec<u8>, ParseError>(e),
        },
{
    match Message::parse(reply) {
        Ok(_) => Ok(copy_bytes(reply)),
        Err(e) => Err(e),
    }
}

} // verus!
