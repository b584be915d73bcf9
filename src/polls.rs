//! The poll service: a registry of polls and a registry of votes keyed by
//! `(poll id, voter)`.
use vstd::prelude::*;
use crate::index::{composite_key, index_entries, lemma_composite_key_injective, vote_key, VoteIndex};
use crate::principal::{bytes_lt, lemma_bytes_lt_irreflexive, lemma_bytes_lt_total, lemma_bytes_lt_transitive, Principal};

verus! {

/// Fewest options a poll may have.
pub const MIN_OPTIONS: usize = 2;

/// Most options a poll may have.
pub const MAX_OPTIONS: usize = 20;

/// A reward pledged by a poll's creator: `reward_count` payouts of
/// `reward_amount` units of the token named by `token_type`.
pub struct RewardInfo {
    pub token_type: String,
    pub reward_amount: u64,
    pub reward_count: u32,
}

impl RewardInfo {
    /// Units needed to pay every pledged reward; `None` when that exceeds `u64`.
    pub fn total_reward(&self) -> (r: Option<u64>)
        ensures
            self.reward_count * self.reward_amount <= u64::MAX ==> r == Some(
                (self.reward_count * self.reward_amount) as u64,
            ),
            self.reward_count * self.reward_amount > u64::MAX ==> r is None,
    {
        (self.reward_count as u64).checked_mul(self.reward_amount)
    }
}

/// A poll as stored by the service.
pub struct Poll {
    pub id: u64,
    pub title: String,
    pub description: String,
    pub options: Vec<String>,
    pub creator: Principal,
    pub created_at: u64,
    pub deadline: Option<u64>,
    pub is_active: bool,
}

/// A poll as a mathematical value.
pub ghost struct PollView {
    pub id: u64,
    pub title: Seq<char>,
    pub description: Seq<char>,
    pub options: Seq<Seq<char>>,
    pub creator: Seq<u8>,
    pub created_at: u64,
    pub deadline: Option<u64>,
    pub is_active: bool,
}

/// The views of a sequence of strings.
pub open spec fn string_views(s: Seq<String>) -> Seq<Seq<char>> {
    s.map_values(|x: String| x@)
}

impl View for Poll {
    type V = PollView;

    open spec fn view(&self) -> PollView {
        PollView {
            id: self.id,
            title: self.title@,
            description: self.description@,
            options: string_views(self.options@),
            creator: self.creator@,
            created_at: self.created_at,
            deadline: self.deadline,
            is_active: self.is_active,
        }
    }
}

/// One voter's choice in one poll.
pub struct Vote {
    pub poll_id: u64,
    pub voter: Principal,
    pub option_index: u32,
    pub voted_at: u64,
}

/// A vote as a mathematical value.
pub ghost struct VoteView {
    pub poll_id: u64,
    pub voter: Seq<u8>,
    pub option_index: u32,
    pub voted_at: u64,
}

impl View for Vote {
    type V = VoteView;

    open spec fn view(&self) -> VoteView {
        VoteView {
            poll_id: self.poll_id,
            voter: self.voter@,
            option_index: self.option_index,
            voted_at: self.voted_at,
        }
    }
}

/// The views of a sequence of polls.
pub open spec fn poll_views(s: Seq<Poll>) -> Seq<PollView> {
    s.map_values(|p: Poll| p@)
}

/// The views of a sequence of votes.
pub open spec fn vote_views(s: Seq<Vote>) -> Seq<VoteView> {
    s.map_values(|v: Vote| v@)
}

/// Why a poll-service operation was refused.
#[derive(Clone, Copy, Debug, PartialEq, Eq, Structural)]
pub enum PollError {
    PollNotFound,
    PollInactive,
    DeadlinePassed,
    InvalidOption,
    AlreadyVoted,
    ValidationError,
}

/// Order in which `get_polls` lists the polls.
#[derive(Clone, Copy, Debug, PartialEq, Eq, Structural)]
pub enum PollOrder {
    /// Order of creation.
    Insertion,
    /// Newest creation time first.
    Time,
    /// Most votes first.
    Popularity,
}

proof fn lemma_has_voted_push(s: Seq<VoteView>, x: VoteView, p: u64, v: Seq<u8>)
    ensures
        has_voted(s.push(x), p, v) == (has_voted(s, p, v) || (x.poll_id == p && x.voter == v)),
{
    let t = s.push(x);
    if has_voted(s, p, v) {
        let i = choose|i: int| 0 <= i < s.len() && (#[trigger] s[i]).poll_id == p && s[i].voter == v;
        assert(t[i] == s[i]);
    }
    if x.poll_id == p && x.voter == v {
        assert(t[s.len() as int] == x);
    }
    if has_voted(t, p, v) {
        let i = choose|i: int| 0 <= i < t.len() && (#[trigger] t[i]).poll_id == p && t[i].voter == v;
        if i < s.len() {
            assert(t[i] == s[i]);
        }
    }
}

/// Whether `votes` holds a vote by `voter` in poll `poll_id`.
pub open spec fn has_voted(votes: Seq<VoteView>, poll_id: u64, voter: Seq<u8>) -> bool {
    exists|i: int| 0 <= i < votes.len() && (#[trigger] votes[i]).poll_id == poll_id && votes[i].voter == voter
}

/// The votes cast in poll `poll_id`, in the order they were cast.
pub open spec fn votes_on(votes: Seq<VoteView>, poll_id: u64) -> Seq<VoteView>
    decreases votes.len(),
{
    if votes.len() == 0 {
        Seq::empty()
    } else if votes.last().poll_id == poll_id {
        votes_on(votes.drop_last(), poll_id).push(votes.last())
    } else {
        votes_on(votes.drop_last(), poll_id)
    }
}

/// The polls created by `user`, in order of creation.
pub open spec fn created_by(polls: Seq<PollView>, user: Seq<u8>) -> Seq<PollView>
    decreases polls.len(),
{
    if polls.len() == 0 {
        Seq::empty()
    } else if polls.last().creator == user {
        created_by(polls.drop_last(), user).push(polls.last())
    } else {
        created_by(polls.drop_last(), user)
    }
}

/// The polls in which `user` has voted, in order of creation.
pub open spec fn attended_by(polls: Seq<PollView>, votes: Seq<VoteView>, user: Seq<u8>) -> Seq<PollView>
    decreases polls.len(),
{
    if polls.len() == 0 {
        Seq::empty()
    } else if has_voted(votes, polls.last().id, user) {
        attended_by(polls.drop_last(), votes, user).push(polls.last())
    } else {
        attended_by(polls.drop_last(), votes, user)
    }
}

/// Number of votes for option `k` of poll `poll_id`.
pub open spec fn count_option(votes: Seq<VoteView>, poll_id: u64, k: int) -> nat
    decreases votes.len(),
{
    if votes.len() == 0 {
        0
    } else {
        count_option(votes.drop_last(), poll_id, k) + if votes.last().poll_id == poll_id
            && votes.last().option_index == k {
            1nat
        } else {
            0nat
        }
    }
}

/// Number of votes cast in poll `poll_id`.
pub open spec fn vote_count(votes: Seq<VoteView>, poll_id: u64) -> nat
    decreases votes.len(),
{
    if votes.len() == 0 {
        0
    } else {
        vote_count(votes.drop_last(), poll_id) + if votes.last().poll_id == poll_id {
            1nat
        } else {
            0nat
        }
    }
}

/// The key by which `get_polls` ranks a poll, larger first.
pub open spec fn order_key(order: PollOrder, p: PollView, votes: Seq<VoteView>) -> nat {
    match order {
        PollOrder::Popularity => vote_count(votes, p.id),
        _ => p.created_at as nat,
    }
}

/// Whether a list of polls is ranked by `order`, larger keys first.
pub open spec fn ranked(s: Seq<PollView>, order: PollOrder, votes: Seq<VoteView>) -> bool {
    forall|i: int, j: int|
        0 <= i < j < s.len() ==> order_key(order, #[trigger] s[i], votes) >= order_key(order, #[trigger] s[j], votes)
}

/// Whether a poll registry and a vote registry are consistent: poll ids are
/// dense from 1, every poll has an acceptable number of options, every vote
/// names an existing poll and one of its options, and no voter has two votes
/// in one poll.
pub open spec fn registry_valid(polls: Seq<PollView>, votes: Seq<VoteView>) -> bool {
    &&& forall|i: int| 0 <= i < polls.len() ==> (#[trigger] polls[i]).id == i + 1
    &&& forall|i: int|
        0 <= i < polls.len() ==> MIN_OPTIONS <= (#[trigger] polls[i]).options.len()
            <= MAX_OPTIONS
    &&& forall|i: int|
        0 <= i < votes.len() ==> 1 <= (#[trigger] votes[i]).poll_id <= polls.len()
            && votes[i].option_index < polls[votes[i].poll_id - 1].options.len()
    &&& forall|i: int, j: int|
        0 <= i < votes.len() && 0 <= j < votes.len() && i != j
            ==> (#[trigger] votes[i]).poll_id != (#[trigger] votes[j]).poll_id
            || votes[i].voter != votes[j].voter
}

/// Whether every option is non-empty.
pub open spec fn options_well_formed(options: Seq<Seq<char>>) -> bool {
    forall|i: int| 0 <= i < options.len() ==> (#[trigger] options[i]).len() > 0
}

/// The error that `create_poll` owes for a request, if any: checks run on the
/// title, the number of options, each option, then the deadline.
pub open spec fn create_error(
    title: Seq<char>,
    options: Seq<Seq<char>>,
    deadline: Option<u64>,
    now: u64,
) -> Option<PollError> {
    if title.len() == 0 {
        Some(PollError::ValidationError)
    } else if options.len() < MIN_OPTIONS || options.len() > MAX_OPTIONS {
        Some(PollError::InvalidOption)
    } else if !options_well_formed(options) {
        Some(PollError::ValidationError)
    } else if deadline matches Some(d) && d <= now {
        Some(PollError::ValidationError)
    } else {
        None
    }
}

/// The error that `vote` owes for a ballot, if any, in order of precedence.
pub open spec fn vote_error(
    polls: Seq<PollView>,
    votes: Seq<VoteView>,
    voter: Seq<u8>,
    poll_id: u64,
    option_index: u32,
    now: u64,
) -> Option<PollError> {
    if poll_id < 1 || poll_id > polls.len() {
        Some(PollError::PollNotFound)
    } else if !polls[poll_id - 1].is_active {
        Some(PollError::PollInactive)
    } else if polls[poll_id - 1].deadline matches Some(d) && now > d {
        Some(PollError::DeadlinePassed)
    } else if option_index >= polls[poll_id - 1].options.len() {
        Some(PollError::InvalidOption)
    } else if has_voted(votes, poll_id, voter) {
        Some(PollError::AlreadyVoted)
    } else {
        None
    }
}

/// Whether every string in the list is non-empty.
fn all_nonempty(options: &Vec<String>) -> (r: bool)
    ensures
        r == options_well_formed(string_views(options@)),
{
    let mut i: usize = 0;
    while i < options.len()
        invariant
            i <= options@.len(),
            forall|j: int| 0 <= j < i ==> (#[trigger] options@[j])@.len() > 0,
        decreases options@.len() - i,
    {
        if options[i].as_str().is_empty() {
            assert(string_views(options@)[i as int].len() == 0);
            return false;
        }
        i = i + 1;
    }
    true
}

/// Copies a list of strings.
fn copy_strings(v: &Vec<String>) -> (r: Vec<String>)
    ensures
        string_views(r@) == string_views(v@),
{
    let mut r: Vec<String> = Vec::new();
    let mut i: usize = 0;
    while i < v.len()
        invariant
            i <= v@.len(),
            r@.len() == i,
            forall|j: int| 0 <= j < i ==> (#[trigger] r@[j])@ == v@[j]@,
        decreases v@.len() - i,
    {
        r.push(v[i].clone());
        i = i + 1;
    }
    assert(string_views(r@) =~= string_views(v@));
    r
}

impl Poll {
    /// A copy of this poll.
    pub fn copy(&self) -> (r: Poll)
        ensures
            r@ == self@,
    {
        Poll {
            id: self.id,
            title: self.title.clone(),
            description: self.description.clone(),
            options: copy_strings(&self.options),
            creator: self.creator.copy(),
            created_at: self.created_at,
            deadline: self.deadline,
            is_active: self.is_active,
        }
    }
}

impl Vote {
    /// A copy of this vote.
    pub fn copy(&self) -> (r: Vote)
        ensures
            r@ == self@,
    {
        Vote {
            poll_id: self.poll_id,
            voter: self.voter.copy(),
            option_index: self.option_index,
            voted_at: self.voted_at,
        }
    }
}


/// The poll service's state: polls in order of creation, and votes in the
/// order they were cast.
pub struct PollService {
    polls: Vec<Poll>,
    votes: Vec<Vote>,
    index: VoteIndex,
}

impl PollService {
    /// The polls, in order of creation.
    pub closed spec fn polls(self) -> Seq<PollView> {
        poll_views(self.polls@)
    }

    /// The votes, in the order they were cast.
    pub closed spec fn votes(self) -> Seq<VoteView> {
        vote_views(self.votes@)
    }

    /// The composite-key index holds exactly the `(poll id, voter)` pairs of
    /// the recorded votes.
    pub closed spec fn index_ok(self) -> bool {
        forall|p: u64, v: Seq<u8>| #[trigger] index_entries(self.index).contains_key(composite_key(p, v)) == has_voted(self.votes(), p, v)
    }

    /// The service's invariant: its registries are consistent, and its index
    /// matches its votes.
    pub open spec fn wf(self) -> bool {
        registry_valid(self.polls(), self.votes()) && self.index_ok()
    }

    /// A service with no polls and no votes.
    pub fn new() -> (r: PollService)
        ensures
            r.wf(),
            r.polls() == Seq::<PollView>::empty(),
            r.votes() == Seq::<VoteView>::empty(),
    {
        let r = PollService { polls: Vec::new(), votes: Vec::new(), index: VoteIndex::new() };
        assert(r.polls() =~= Seq::<PollView>::empty());
        assert(r.votes() =~= Seq::<VoteView>::empty());
        r
    }

    /// Whether `voter` has voted in poll `poll_id`: one lookup in the index.
    pub fn has_voted(&self, poll_id: u64, voter: &Principal) -> (r: bool)
        requires
            self.wf(),
        ensures
            r == has_voted(self.votes(), poll_id, voter@),
    {
        self.index.contains(&vote_key(poll_id, voter))
    }

    /// Number of polls created so far.
    pub fn poll_count(&self) -> (r: usize)
        ensures
            r == self.polls().len(),
    {
        self.polls.len()
    }

    /// Creates a poll by `caller` at time `now` and returns its id, one more
    /// than the number of polls before it.
    pub fn create_poll(
        &mut self,
        caller: &Principal,
        title: String,
        description: String,
        options: Vec<String>,
        deadline: Option<u64>,
        now: u64,
    ) -> (r: Result<u64, PollError>)
        requires
            old(self).wf(),
            old(self).polls().len() < u64::MAX,
        ensures
            final(self).wf(),
            final(self).votes() == old(self).votes(),
            create_error(title@, string_views(options@), deadline, now) matches Some(e) ==> r == Err::<
                u64,
                PollError,
            >(e) && *final(self) == *old(self),
            create_error(title@, string_views(options@), deadline, now) is None ==> {
                &&& r == Ok::<u64, PollError>((old(self).polls().len() + 1) as u64)
                &&& final(self).polls() == old(self).polls().push(
                    PollView {
                        id: (old(self).polls().len() + 1) as u64,
                        title: title@,
                        description: description@,
                        options: string_views(options@),
                        creator: caller@,
                        created_at: now,
                        deadline: deadline,
                        is_active: true,
                    },
                )
            },
    {
        if title.as_str().is_empty() {
            return Err(PollError::ValidationError);
        }
        if options.len() < MIN_OPTIONS || options.len() > MAX_OPTIONS {
            return Err(PollError::InvalidOption);
        }
        if !all_nonempty(&options) {
            return Err(PollError::ValidationError);
        }
        assert(options_well_formed(string_views(options@)));
        if let Some(d) = deadline {
            if d <= now {
                return Err(PollError::ValidationError);
            }
        }
        let id = self.polls.len() as u64 + 1;
        let poll = Poll {
            id,
            title,
            description,
            options,
            creator: caller.copy(),
            created_at: now,
            deadline,
            is_active: true,
        };
        let ghost before = *self;
        self.polls.push(poll);
        proof {
            assert(self.polls() =~= before.polls().push(poll@));
        }
        Ok(id)
    }

    /// Records the vote of `caller` for option `option_index` of poll `poll_id`
    /// at time `now`.
    pub fn vote(&mut self, caller: &Principal, poll_id: u64, option_index: u32, now: u64) -> (r: Result<(), PollError>)
        requires
            old(self).wf(),
        ensures
            final(self).wf(),
            final(self).polls() == old(self).polls(),
            vote_error(old(self).polls(), old(self).votes(), caller@, poll_id, option_index, now) matches Some(e)
                ==> r == Err::<(), PollError>(e) && *final(self) == *old(self),
            vote_error(old(self).polls(), old(self).votes(), caller@, poll_id, option_index, now) is None ==> {
                &&& r is Ok
                &&& final(self).votes() == old(self).votes().push(
                    VoteView { poll_id, voter: caller@, option_index, voted_at: now },
                )
            },
    {
        if poll_id < 1 || poll_id > self.polls.len() as u64 {
            return Err(PollError::PollNotFound);
        }
        let idx = (poll_id - 1) as usize;
        let poll = &self.polls[idx];
        assert(self.polls()[idx as int] == poll@);
        if !poll.is_active {
            return Err(PollError::PollInactive);
        }
        if let Some(d) = poll.deadline {
            if now > d {
                return Err(PollError::DeadlinePassed);
            }
        }
        if option_index as u64 >= poll.options.len() as u64 {
            return Err(PollError::InvalidOption);
        }
        if self.has_voted(poll_id, caller) {
            return Err(PollError::AlreadyVoted);
        }
        let ghost before = *self;
        let ballot = Vote { poll_id, voter: caller.copy(), option_index, voted_at: now };
        self.votes.push(ballot);
        self.index.insert(vote_key(poll_id, caller), option_index, now);
        proof {
            assert(self.votes() =~= before.votes().push(ballot@));
            assert(self.polls() == before.polls());
            assert forall|p: u64, v: Seq<u8>| #[trigger] index_entries(self.index).contains_key(composite_key(p, v))
                == has_voted(self.votes(), p, v) by {
                lemma_has_voted_push(before.votes(), ballot@, p, v);
                if composite_key(p, v) == composite_key(poll_id, caller@) {
                    lemma_composite_key_injective(p, v, poll_id, caller@);
                }
                assert(index_entries(before.index).contains_key(composite_key(p, v)) == has_voted(before.votes(), p, v));
            }
        }
        Ok(())
    }
}


impl PollService {
    /// The poll with id `id`, if there is one.
    pub fn get_poll(&self, id: u64) -> (r: Option<Poll>)
        requires
            self.wf(),
        ensures
            1 <= id <= self.polls().len() ==> (r matches Some(p) && p@ == self.polls()[id - 1]),
            !(1 <= id <= self.polls().len()) ==> r is None,
    {
        if id < 1 || id > self.polls.len() as u64 {
            return None;
        }
        let p = self.polls[(id - 1) as usize].copy();
        assert(self.polls()[id - 1] == self.polls@[id - 1]@);
        Some(p)
    }

    /// Every poll, in order of creation.
    fn all_polls(&self) -> (r: Vec<Poll>)
        ensures
            poll_views(r@) == self.polls(),
    {
        let mut r: Vec<Poll> = Vec::new();
        let mut i: usize = 0;
        while i < self.polls.len()
            invariant
                i <= self.polls@.len(),
                r@.len() == i,
                forall|j: int| 0 <= j < i ==> (#[trigger] r@[j])@ == self.polls@[j]@,
            decreases self.polls@.len() - i,
        {
            r.push(self.polls[i].copy());
            i = i + 1;
        }
        assert(poll_views(r@) =~= self.polls());
        r
    }

    /// The votes cast in poll `poll_id`, ordered by voter bytes: the order of
    /// their `(poll id, voter)` keys.
    pub fn get_votes(&self, poll_id: u64) -> (r: Vec<Vote>)
        requires
            self.wf(),
        ensures
            vote_views(r@).to_multiset() == votes_on(self.votes(), poll_id).to_multiset(),
            forall|t: int, u: int|
                0 <= t < u < r@.len() ==> bytes_lt(
                    (#[trigger] vote_views(r@)[t]).voter,
                    (#[trigger] vote_views(r@)[u]).voter,
                ),
    {
        let mut r: Vec<Vote> = Vec::new();
        let mut i: usize = 0;
        assert(vote_views(r@) =~= votes_on(self.votes().take(0), poll_id));
        while i < self.votes.len()
            invariant
                self.wf(),
                i <= self.votes@.len(),
                vote_views(r@).to_multiset() == votes_on(self.votes().take(i as int), poll_id).to_multiset(),
                forall|t: int, u: int|
                    0 <= t < u < r@.len() ==> bytes_lt(
                        (#[trigger] vote_views(r@)[t]).voter,
                        (#[trigger] vote_views(r@)[u]).voter,
                    ),
                forall|t: int|
                    0 <= t < r@.len() ==> exists|k: int|
                        0 <= k < i && #[trigger] self.votes()[k] == #[trigger] vote_views(r@)[t],
                forall|t: int| 0 <= t < r@.len() ==> (#[trigger] vote_views(r@)[t]).poll_id == poll_id,
            decreases self.votes@.len() - i,
        {
            let v = &self.votes[i];
            proof {
                assert(self.votes().take(i + 1).drop_last() =~= self.votes().take(i as int));
                assert(self.votes().take(i + 1).last() == v@);
                assert(self.votes()[i as int] == v@);
            }
            if v.poll_id == poll_id {
                let mut j: usize = 0;
                while j < r.len() && r[j].voter.less_than(&v.voter)
                    invariant
                        j <= r@.len(),
                        forall|t: int| 0 <= t < j ==> bytes_lt((#[trigger] vote_views(r@)[t]).voter, v.voter@),
                    decreases r@.len() - j,
                {
                    assert(vote_views(r@)[j as int] == r@[j as int]@);
                    j = j + 1;
                }
                let ghost old_r = vote_views(r@);
                r.insert(j, v.copy());
                proof {
                    assert(vote_views(r@) =~= old_r.insert(j as int, v@));
                    vstd::seq_lib::to_multiset_insert(old_r, j as int, v@);
                    vstd::seq_lib::to_multiset_build(votes_on(self.votes().take(i as int), poll_id), v@);
                    let nr = vote_views(r@);
                    assert forall|t: int| 0 <= t < nr.len() implies (#[trigger] nr[t]).poll_id == poll_id by {
                        if t < j {
                            assert(nr[t] == old_r[t]);
                        } else if t > j {
                            assert(nr[t] == old_r[t - 1]);
                        }
                    }
                    if j < old_r.len() {
                        assert(old_r[j as int] == r@[j as int + 1]@);
                        let k = choose|k: int| 0 <= k < i && #[trigger] self.votes()[k] == old_r[j as int];
                        assert(self.votes()[k] == old_r[j as int]);
                        assert(old_r[j as int].voter != v.voter@) by {
                            assert(old_r[j as int].poll_id == poll_id);
                            assert(self.votes()[k].poll_id == self.votes()[i as int].poll_id);
                        }
                        assert(!bytes_lt(old_r[j as int].voter, v.voter@));
                        lemma_bytes_lt_total(old_r[j as int].voter, v.voter@);
                    }
                    assert forall|t: int, u: int| 0 <= t < u < nr.len() implies bytes_lt(
                        (#[trigger] nr[t]).voter,
                        (#[trigger] nr[u]).voter,
                    ) by {
                        if u < j {
                            assert(nr[t] == old_r[t] && nr[u] == old_r[u]);
                        } else if u == j {
                            assert(nr[t] == old_r[t]);
                        } else if t == j {
                            assert(nr[u] == old_r[u - 1]);
                            if u - 1 > j {
                                lemma_bytes_lt_transitive(v.voter@, old_r[j as int].voter, old_r[u - 1].voter);
                            }
                        } else if t < j {
                            assert(nr[t] == old_r[t] && nr[u] == old_r[u - 1]);
                        } else {
                            assert(nr[t] == old_r[t - 1] && nr[u] == old_r[u - 1]);
                        }
                    }
                    assert forall|t: int| 0 <= t < nr.len() implies exists|k: int|
                        0 <= k < i + 1 && #[trigger] self.votes()[k] == #[trigger] nr[t] by {
                        if t < j {
                            assert(nr[t] == old_r[t]);
                            let k = choose|k: int| 0 <= k < i && #[trigger] self.votes()[k] == old_r[t];
                            assert(self.votes()[k] == nr[t]);
                        } else if t == j {
                            assert(self.votes()[i as int] == nr[t]);
                        } else {
                            assert(nr[t] == old_r[t - 1]);
                            let k = choose|k: int| 0 <= k < i && #[trigger] self.votes()[k] == old_r[t - 1];
                            assert(self.votes()[k] == nr[t]);
                        }
                    }
                }
            } else {
                proof {
                    let nr = vote_views(r@);
                    assert forall|t: int| 0 <= t < nr.len() implies exists|k: int|
                        0 <= k < i + 1 && #[trigger] self.votes()[k] == #[trigger] nr[t] by {
                        let k = choose|k: int| 0 <= k < i && #[trigger] self.votes()[k] == nr[t];
                        assert(self.votes()[k] == nr[t]);
                    }
                }
            }
            i = i + 1;
        }
        assert(self.votes().take(self.votes@.len() as int) =~= self.votes());
        r
    }

    /// The polls created by `user`, in order of creation.
    pub fn get_my_polls(&self, user: &Principal) -> (r: Vec<Poll>)
        ensures
            poll_views(r@) == created_by(self.polls(), user@),
    {
        let mut r: Vec<Poll> = Vec::new();
        let mut i: usize = 0;
        while i < self.polls.len()
            invariant
                i <= self.polls@.len(),
                poll_views(r@) == created_by(self.polls().take(i as int), user@),
            decreases self.polls@.len() - i,
        {
            let ghost before = r@;
            let p = &self.polls[i];
            proof {
                assert(self.polls().take(i + 1).drop_last() =~= self.polls().take(i as int));
                assert(self.polls().take(i + 1).last() == p@);
            }
            if p.creator.same(user) {
                r.push(p.copy());
                assert(poll_views(r@) =~= poll_views(before).push(p@));
            }
            i = i + 1;
        }
        assert(self.polls().take(self.polls@.len() as int) =~= self.polls());
        r
    }

    /// The polls in which `user` has voted, in order of creation.
    pub fn get_my_attendance(&self, user: &Principal) -> (r: Vec<Poll>)
        requires
            self.wf(),
        ensures
            poll_views(r@) == attended_by(self.polls(), self.votes(), user@),
    {
        let mut r: Vec<Poll> = Vec::new();
        let mut i: usize = 0;
        while i < self.polls.len()
            invariant
                self.wf(),
                i <= self.polls@.len(),
                poll_views(r@) == attended_by(self.polls().take(i as int), self.votes(), user@),
            decreases self.polls@.len() - i,
        {
            let ghost before = r@;
            let p = &self.polls[i];
            proof {
                assert(self.polls().take(i + 1).drop_last() =~= self.polls().take(i as int));
                assert(self.polls().take(i + 1).last() == p@);
            }
            if self.has_voted(p.id, user) {
                r.push(p.copy());
                assert(poll_views(r@) =~= poll_views(before).push(p@));
            }
            i = i + 1;
        }
        assert(self.polls().take(self.polls@.len() as int) =~= self.polls());
        r
    }

    /// Votes for each option of poll `poll_id`, counted over the vote registry;
    /// empty when there is no such poll.
    pub fn tally(&self, poll_id: u64) -> (r: Vec<u64>)
        requires
            self.wf(),
        ensures
            1 <= poll_id <= self.polls().len() ==> r@.len() == self.polls()[poll_id - 1].options.len(),
            !(1 <= poll_id <= self.polls().len()) ==> r@.len() == 0,
            forall|k: int| 0 <= k < r@.len() ==> r@[k] == count_option(self.votes(), poll_id, k),
    {
        let mut r: Vec<u64> = Vec::new();
        if poll_id < 1 || poll_id > self.polls.len() as u64 {
            return r;
        }
        let n = self.polls[(poll_id - 1) as usize].options.len();
        assert(self.polls()[poll_id - 1].options.len() == n);
        let mut k: usize = 0;
        while k < n
            invariant
                k <= n,
                r@.len() == k,
                forall|j: int| 0 <= j < k ==> r@[j] == 0,
            decreases n - k,
        {
            r.push(0);
            k = k + 1;
        }
        assert forall|j: int| 0 <= j < n implies r@[j] == count_option(self.votes().take(0), poll_id, j) by {
            assert(self.votes().take(0).len() == 0);
        }
        let mut i: usize = 0;
        while i < self.votes.len()
            invariant
                self.wf(),
                1 <= poll_id <= self.polls().len(),
                n == self.polls()[poll_id - 1].options.len(),
                i <= self.votes@.len(),
                r@.len() == n,
                forall|j: int| 0 <= j < n ==> r@[j] == count_option(self.votes().take(i as int), poll_id, j),
                forall|j: int| 0 <= j < n ==> r@[j] <= i,
            decreases self.votes@.len() - i,
        {
            let v = &self.votes[i];
            proof {
                assert(self.votes().take(i + 1).drop_last() =~= self.votes().take(i as int));
                assert(self.votes().take(i + 1).last() == v@);
                assert(self.votes()[i as int] == v@);
            }
            if v.poll_id == poll_id {
                let k = v.option_index as usize;
                let c = r[k];
                r.set(k, c + 1);
            }
            i = i + 1;
        }
        assert(self.votes().take(self.votes@.len() as int) =~= self.votes());
        r
    }
}


/// Every recorded vote names an existing poll and one of that poll's options.
pub proof fn lemma_votes_name_valid_options(s: PollService)
    requires
        s.wf(),
    ensures
        forall|i: int|
            0 <= i < s.votes().len() ==> 1 <= (#[trigger] s.votes()[i]).poll_id <= s.polls().len()
                && s.votes()[i].option_index < s.polls()[s.votes()[i].poll_id - 1].options.len(),
{
}

/// No voter has more than one vote in the same poll.
pub proof fn lemma_one_vote_per_voter(s: PollService)
    requires
        s.wf(),
    ensures
        forall|i: int, j: int|
            0 <= i < s.votes().len() && 0 <= j < s.votes().len() && (#[trigger] s.votes()[i]).poll_id
                == (#[trigger] s.votes()[j]).poll_id && s.votes()[i].voter == s.votes()[j].voter ==> i == j,
{
}

/// Poll ids grow strictly in order of creation, and the id that the next
/// `create_poll` hands out exceeds every id already given.
pub proof fn lemma_ids_increase(s: PollService)
    requires
        s.wf(),
    ensures
        forall|i: int, j: int| 0 <= i < j < s.polls().len() ==> (#[trigger] s.polls()[i]).id < (#[trigger] s.polls()[j]).id,
        forall|i: int| 0 <= i < s.polls().len() ==> (#[trigger] s.polls()[i]).id < s.polls().len() + 1,
{
}

/// After an accepted vote by `voter` for option `k` of poll `poll_id`, any
/// listing of that poll's votes in the form `get_votes` returns (the same
/// votes, strictly ordered by voter bytes) holds exactly one entry by
/// `voter`, and it names option `k`.
pub proof fn lemma_vote_listed_once(
    s: PollService,
    voter: Seq<u8>,
    poll_id: u64,
    k: u32,
    now: u64,
    listed: Seq<VoteView>,
)
    requires
        s.wf(),
        vote_error(s.polls(), s.votes(), voter, poll_id, k, now) is None,
        listed.to_multiset() == votes_on(
            s.votes().push(VoteView { poll_id, voter, option_index: k, voted_at: now }),
            poll_id,
        ).to_multiset(),
        forall|t: int, u: int| 0 <= t < u < listed.len() ==> bytes_lt((#[trigger] listed[t]).voter, (#[trigger] listed[u]).voter),
    ensures
        exists|i: int| 0 <= i < listed.len() && (#[trigger] listed[i]).voter == voter && listed[i].option_index == k,
        forall|i: int, j: int|
            0 <= i < listed.len() && 0 <= j < listed.len() && (#[trigger] listed[i]).voter == voter
                && (#[trigger] listed[j]).voter == voter ==> i == j,
{
    let v = VoteView { poll_id, voter, option_index: k, voted_at: now };
    let after = s.votes().push(v);
    assert(after.drop_last() =~= s.votes());
    let before_on = votes_on(s.votes(), poll_id);
    assert(votes_on(after, poll_id) == before_on.push(v));
    vstd::seq_lib::to_multiset_build(before_on, v);
    vstd::seq_lib::to_multiset_contains(listed, v);
    let i = choose|i: int| 0 <= i < listed.len() && listed[i] == v;
    assert(listed[i].voter == voter);
    lemma_bytes_lt_irreflexive(voter);
    assert forall|i: int, j: int|
        0 <= i < listed.len() && 0 <= j < listed.len() && (#[trigger] listed[i]).voter == voter
            && (#[trigger] listed[j]).voter == voter implies i == j by {
        if i < j {
            assert(bytes_lt(listed[i].voter, listed[j].voter));
        } else if j < i {
            assert(bytes_lt(listed[j].voter, listed[i].voter));
        }
    }
}

/// Once `voter` has a vote in poll `poll_id`, another ballot by `voter` in that
/// poll is refused as a repeat, whenever it names a valid option before the
/// deadline.
pub proof fn lemma_second_vote_refused(
    s: PollService,
    voter: Seq<u8>,
    poll_id: u64,
    first: u32,
    second: u32,
    first_at: u64,
    second_at: u64,
)
    requires
        s.wf(),
        vote_error(s.polls(), s.votes(), voter, poll_id, first, first_at) is None,
        second < s.polls()[poll_id - 1].options.len(),
        !(s.polls()[poll_id - 1].deadline matches Some(d) && second_at > d),
    ensures
        vote_error(
            s.polls(),
            s.votes().push(VoteView { poll_id, voter, option_index: first, voted_at: first_at }),
            voter,
            poll_id,
            second,
            second_at,
        ) == Some(PollError::AlreadyVoted),
{
    let after = s.votes().push(VoteView { poll_id, voter, option_index: first, voted_at: first_at });
    assert(after[s.votes().len() as int].poll_id == poll_id);
    assert(has_voted(after, poll_id, voter));
}


impl PollService {
    /// Number of votes cast in poll `poll_id`.
    pub fn popularity(&self, poll_id: u64) -> (r: u64)
        ensures
            r == vote_count(self.votes(), poll_id),
    {
        let mut c: u64 = 0;
        let mut i: usize = 0;
        while i < self.votes.len()
            invariant
                i <= self.votes@.len(),
                c == vote_count(self.votes().take(i as int), poll_id),
                c <= i,
            decreases self.votes@.len() - i,
        {
            let v = &self.votes[i];
            proof {
                assert(self.votes().take(i + 1).drop_last() =~= self.votes().take(i as int));
                assert(self.votes().take(i + 1).last() == v@);
            }
            if v.poll_id == poll_id {
                c = c + 1;
            }
            i = i + 1;
        }
        assert(self.votes().take(self.votes@.len() as int) =~= self.votes());
        c
    }

    /// Every poll: in order of creation, or ranked newest first, or ranked by
    /// number of votes.
    pub fn get_polls(&self, order: PollOrder) -> (r: Vec<Poll>)
        ensures
            order == PollOrder::Insertion ==> poll_views(r@) == self.polls(),
            order != PollOrder::Insertion ==> poll_views(r@).to_multiset() == self.polls().to_multiset()
                && ranked(poll_views(r@), order, self.votes()),
    {
        if order == PollOrder::Insertion {
            return self.all_polls();
        }
        let mut out: Vec<Poll> = Vec::new();
        let mut keys: Vec<u64> = Vec::new();
        let mut i: usize = 0;
        assert(poll_views(out@) =~= self.polls().take(0));
        while i < self.polls.len()
            invariant
                order != PollOrder::Insertion,
                i <= self.polls@.len(),
                keys@.len() == out@.len(),
                forall|t: int| 0 <= t < keys@.len() ==> keys@[t] == order_key(order, #[trigger] out@[t]@, self.votes()),
                forall|t: int, u: int| 0 <= t < u < keys@.len() ==> keys@[t] >= keys@[u],
                poll_views(out@).to_multiset() == self.polls().take(i as int).to_multiset(),
            decreases self.polls@.len() - i,
        {
            let p = self.polls[i].copy();
            let k = if order == PollOrder::Popularity {
                self.popularity(p.id)
            } else {
                p.created_at
            };
            let mut j: usize = 0;
            while j < keys.len() && keys[j] >= k
                invariant
                    j <= keys@.len(),
                    forall|t: int| 0 <= t < j ==> keys@[t] >= k,
                decreases keys@.len() - j,
            {
                j = j + 1;
            }
            let ghost old_out = out@;
            let ghost old_keys = keys@;
            out.insert(j, p);
            keys.insert(j, k);
            proof {
                assert(poll_views(out@) =~= poll_views(old_out).insert(j as int, p@));
                vstd::seq_lib::to_multiset_insert(poll_views(old_out), j as int, p@);
                assert(self.polls().take(i + 1) =~= self.polls().take(i as int).push(self.polls()[i as int]));
                vstd::seq_lib::to_multiset_build(self.polls().take(i as int), self.polls()[i as int]);
                assert(self.polls()[i as int] == p@);
                assert forall|t: int| 0 <= t < keys@.len() implies keys@[t] == order_key(order, #[trigger] out@[t]@, self.votes()) by {
                    if t > j {
                        assert(out@[t] == old_out[t - 1]);
                    } else if t < j {
                        assert(out@[t] == old_out[t]);
                    }
                }
                assert forall|t: int, u: int| 0 <= t < u < keys@.len() implies keys@[t] >= keys@[u] by {
                    if j < old_keys.len() {
                        assert(old_keys[j as int] < k);
                    }
                    if t < j && u > j {
                        assert(keys@[t] == old_keys[t]);
                        assert(keys@[u] == old_keys[u - 1]);
                    } else if t == j && u > j {
                        assert(keys@[u] == old_keys[u - 1]);
                        assert(old_keys[u - 1] <= old_keys[j as int]);
                    }
                }
            }
            i = i + 1;
        }
        proof {
            assert(self.polls().take(self.polls@.len() as int) =~= self.polls());
            assert forall|t: int, u: int| 0 <= t < u < out@.len() implies order_key(order, #[trigger] poll_views(out@)[t], self.votes())
                >= order_key(order, #[trigger] poll_views(out@)[u], self.votes()) by {
                assert(poll_views(out@)[t] == out@[t]@);
                assert(poll_views(out@)[u] == out@[u]@);
            }
        }
        out
    }
}


impl PollService {
    /// Hands out the two registries, for storage.
    pub fn into_parts(self) -> (r: (Vec<Poll>, Vec<Vote>))
        ensures
            poll_views(r.0@) == self.polls(),
            vote_views(r.1@) == self.votes(),
    {
        (self.polls, self.votes)
    }

    /// Rebuilds a service from stored registries; `None` when they are not
    /// consistent.
    pub fn restore(polls: Vec<Poll>, votes: Vec<Vote>) -> (r: Option<PollService>)
        ensures
            registry_valid(poll_views(polls@), vote_views(votes@)) ==> (r matches Some(s) && s.wf() && s.polls()
                == poll_views(polls@) && s.votes() == vote_views(votes@)),
            !registry_valid(poll_views(polls@), vote_views(votes@)) ==> r is None,
    {
        let ghost pv = poll_views(polls@);
        let ghost vv = vote_views(votes@);
        let mut i: usize = 0;
        while i < polls.len()
            invariant
                pv == poll_views(polls@),
                i <= polls@.len(),
                forall|t: int| 0 <= t < i ==> (#[trigger] pv[t]).id == t + 1 && MIN_OPTIONS <= pv[t].options.len() <= MAX_OPTIONS,
            decreases polls@.len() - i,
        {
            let p = &polls[i];
            assert(pv[i as int] == p@);
            if p.id < 1 || p.id - 1 != i as u64 || p.options.len() < MIN_OPTIONS || p.options.len() > MAX_OPTIONS {
                return None;
            }
            i = i + 1;
        }
        let mut index = VoteIndex::new();
        let mut i: usize = 0;
        while i < votes.len()
            invariant
                pv == poll_views(polls@),
                vv == vote_views(votes@),
                i <= votes@.len(),
                forall|p: u64, w: Seq<u8>| #[trigger] index_entries(index).contains_key(composite_key(p, w)) == has_voted(vv.take(i as int), p, w),
                forall|t: int| 0 <= t < pv.len() ==> (#[trigger] pv[t]).id == t + 1 && MIN_OPTIONS <= pv[t].options.len() <= MAX_OPTIONS,
                forall|t: int|
                    0 <= t < i ==> 1 <= (#[trigger] vv[t]).poll_id <= pv.len() && vv[t].option_index < pv[vv[t].poll_id
                        - 1].options.len(),
                forall|t: int, u: int|
                    0 <= t < i && 0 <= u < i && t != u ==> (#[trigger] vv[t]).poll_id != (#[trigger] vv[u]).poll_id
                        || vv[t].voter != vv[u].voter,
            decreases votes@.len() - i,
        {
            let v = &votes[i];
            assert(vv[i as int] == v@);
            if v.poll_id < 1 || v.poll_id > polls.len() as u64 {
                return None;
            }
            let idx = (v.poll_id - 1) as usize;
            assert(pv[idx as int] == polls@[idx as int]@);
            if v.option_index as u64 >= polls[idx].options.len() as u64 {
                return None;
            }
            if index.contains(&vote_key(v.poll_id, &v.voter)) {
                proof {
                    let t = choose|t: int| 0 <= t < vv.take(i as int).len() && (#[trigger] vv.take(i as int)[t]).poll_id == v.poll_id
                        && vv.take(i as int)[t].voter == v.voter@;
                    assert(vv[t] == vv.take(i as int)[t]);
                    assert(vv[t].poll_id == vv[i as int].poll_id && vv[t].voter == vv[i as int].voter);
                }
                return None;
            }
            let ghost old_index = index;
            index.insert(vote_key(v.poll_id, &v.voter), v.option_index, v.voted_at);
            proof {
                assert(vv.take(i + 1) =~= vv.take(i as int).push(vv[i as int]));
                assert forall|p: u64, w: Seq<u8>| #[trigger] index_entries(index).contains_key(composite_key(p, w))
                    == has_voted(vv.take(i + 1), p, w) by {
                    lemma_has_voted_push(vv.take(i as int), vv[i as int], p, w);
                    if composite_key(p, w) == composite_key(v.poll_id, v.voter@) {
                        lemma_composite_key_injective(p, w, v.poll_id, v.voter@);
                    }
                    assert(index_entries(old_index).contains_key(composite_key(p, w)) == has_voted(vv.take(i as int), p, w));
                }
                assert forall|t: int| 0 <= t < i implies (#[trigger] vv[t]).poll_id != v.poll_id || vv[t].voter != v.voter@ by {
                    assert(vv.take(i as int)[t] == vv[t]);
                    if vv[t].poll_id == v.poll_id && vv[t].voter == v.voter@ {
                        assert(has_voted(vv.take(i as int), v.poll_id, v.voter@));
                    }
                }
            }
            i = i + 1;
        }
        let s = PollService { polls, votes, index };
        assert(s.polls() == pv);
        assert(s.votes() == vv);
        assert(vv.take(vv.len() as int) =~= vv);
        Some(s)
    }
}

/// Registries handed out by a consistent service are consistent, so that
/// `restore` accepts them and rebuilds the same polls and votes: nothing that
/// was acknowledged is lost across a restart.
pub proof fn lemma_snapshot_restores(s: PollService, polls: Seq<Poll>, votes: Seq<Vote>)
    requires
        s.wf(),
        poll_views(polls) == s.polls(),
        vote_views(votes) == s.votes(),
    ensures
        registry_valid(poll_views(polls), vote_views(votes)),
{
}


/// Once the clock is past an active poll's deadline, every ballot in it is
/// refused with `DeadlinePassed`, whoever casts it and whatever it names.
pub proof fn lemma_deadline_closes_poll(s: PollService, poll_id: u64, now: u64)
    requires
        s.wf(),
        1 <= poll_id <= s.polls().len(),
        s.polls()[poll_id - 1].is_active,
        s.polls()[poll_id - 1].deadline matches Some(d) && now > d,
    ensures
        forall|voter: Seq<u8>, k: u32|
            #[trigger] vote_error(s.polls(), s.votes(), voter, poll_id, k, now) == Some(PollError::DeadlinePassed),
{
}

/// Two polls created one after the other get different ids, the second
/// larger, whatever their arguments.
pub proof fn lemma_successive_ids(s: PollService, first: PollView, second: PollView)
    requires
        s.wf(),
        first.id == s.polls().len() + 1,
        second.id == s.polls().push(first).len() + 1,
    ensures
        first.id < second.id,
        forall|i: int| 0 <= i < s.polls().len() ==> (#[trigger] s.polls()[i]).id < first.id,
{
}

} // verus!
