//! The pre-trade risk gateway: per-user position limits.
use vstd::prelude::*;
use crate::message::OrderMessage;

verus! {

/// The largest order quantity the gateway lets through.
pub const MAX_ORDER_QTY: u32 = 50_000;

/// The position limit every user starts with.
pub const DEFAULT_MAX_POSITION: u32 = 1_000_000;

#[derive(Clone, Copy, Debug)]
pub struct UserState {
    pub max_position: u32,
    pub current_exposure: u32,
    pub active_orders_count: u32,
}

pub open spec fn fresh_user() -> UserState {
    UserState { max_position: DEFAULT_MAX_POSITION, current_exposure: 0, active_orders_count: 0 }
}

impl Default for UserState {
    fn default() -> (u: Self)
        ensures
            u == fresh_user(),
    {
        UserState { max_position: DEFAULT_MAX_POSITION, current_exposure: 0, active_orders_count: 0 }
    }
}

pub struct RiskGateway {
    users: Vec<UserState>,
}

/// Whether the gateway accepts `msg` from a user in state `u`: the quantity
/// is at most `MAX_ORDER_QTY` and the new exposure stays within the limit.
pub open spec fn accepts(u: UserState, msg: OrderMessage) -> bool {
    msg.quantity <= MAX_ORDER_QTY && u.current_exposure + msg.quantity <= u.max_position
}

/// A user's state once an order of `qty` is accepted.
pub open spec fn after_accept(u: UserState, qty: u32) -> UserState {
    UserState {
        current_exposure: (u.current_exposure + qty) as u32,
        active_orders_count: (u.active_orders_count + 1) as u32,
        ..u
    }
}

/// The gateway judges an order by its size and its user's exposure only,
/// never by its side or price: a user's order is accepted exactly when its
/// quantity is at most 50_000 and the exposure it adds stays within the
/// user's limit, so two orders of the same quantity are judged alike. An
/// accepted order adds its quantity to the exposure and counts one more
/// active order, and leaves the limit as it was.
pub proof fn lemma_decision(u: UserState, msg: OrderMessage, other: OrderMessage)
    requires
        other.quantity == msg.quantity,
    ensures
        accepts(u, msg) <==> (msg.quantity <= 50_000 && u.current_exposure + msg.quantity <= u.max_position),
        accepts(u, msg) == accepts(u, other),
        accepts(u, msg) ==> after_accept(u, msg.quantity).current_exposure == u.current_exposure + msg.quantity,
        u.active_orders_count < u32::MAX ==> after_accept(u, msg.quantity).active_orders_count
            == u.active_orders_count + 1,
        after_accept(u, msg.quantity).max_position == u.max_position,
{
}

impl RiskGateway {
    /// The state of every user, by user id.
    pub closed spec fn users(&self) -> Seq<UserState> {
        self.users@
    }

    /// No user is exposed beyond its limit, and limits are the default one.
    pub open spec fn wf(&self) -> bool {
        forall|i: int|
            0 <= i < self.users().len() ==> (#[trigger] self.users()[i]).current_exposure
                <= self.users()[i].max_position && self.users()[i].max_position == DEFAULT_MAX_POSITION
    }

    /// A gateway for user ids below `max_users`, all fresh.
    pub fn new(max_users: usize) -> (g: Self)
        ensures
            g.wf(),
            g.users() == Seq::new(max_users as nat, |i: int| fresh_user()),
    {
        let g = RiskGateway { users: vec![UserState::default(); max_users] };
        assert(g.users() =~= Seq::new(max_users as nat, |i: int| fresh_user()));
        g
    }

    /// Accepts or rejects `msg`. An accepted order adds its quantity to its
    /// user's exposure and counts as one more active order; an unknown user,
    /// an oversized order or one that would break the limit is rejected and
    /// changes nothing.
    pub fn check_pre_trade(&mut self, msg: &OrderMessage) -> (accepted: bool)
        requires
            old(self).wf(),
            (msg.user_id as int) < old(self).users().len() && accepts(
                old(self).users()[msg.user_id as int],
                *msg,
            ) ==> old(self).users()[msg.user_id as int].active_orders_count < u32::MAX,
        ensures
            final(self).wf(),
            accepted == ((msg.user_id as int) < old(self).users().len() && msg.quantity <= 50_000
                && old(self).users()[msg.user_id as int].current_exposure + msg.quantity <= old(
                self,
            ).users()[msg.user_id as int].max_position),
            accepted == ((msg.user_id as int) < old(self).users().len() && accepts(
                old(self).users()[msg.user_id as int],
                *msg,
            )),
            final(self).users() == (if accepted {
                old(self).users().update(
                    msg.user_id as int,
                    after_accept(old(self).users()[msg.user_id as int], msg.quantity),
                )
            } else {
                old(self).users()
            }),
    {
        let uid = msg.user_id as usize;
        if uid >= self.users.len() {
            return false;
        }
        let mut user = self.users[uid];
        if msg.quantity > MAX_ORDER_QTY {
            return false;
        }
        assert(self.users()[uid as int].current_exposure <= DEFAULT_MAX_POSITION);
        let new_exposure = user.current_exposure + msg.quantity;
        if new_exposure > user.max_position {
            return false;
        }
        user.current_exposure = new_exposure;
        user.active_orders_count = user.active_orders_count + 1;
        self.users.set(uid, user);
        true
    }

    /// The state of user `user_id`.
    pub fn user(&self, user_id: usize) -> (u: UserState)
        requires
            user_id < self.users().len(),
        ensures
            u == self.users()[user_id as int],
    {
        self.users[user_id]
    }
}

} // verus!
