//! The payout engine's decision core.
//!
//! The engine is a small state machine driven by one event at a time: a
//! block notification makes it query the balance, the balance reply makes
//! it either submit a payout or go back to listening, and the payout
//! reply returns it to listening. Every fatal condition moves it to the
//! terminal phase with a halt command; the surrounding event loop performs
//! the commanded work and feeds the reply back. Because one call of
//! [`Engine::step`] fully decides one message before the next is handed
//! in, payout decisions are totally ordered by construction.

use vstd::prelude::*;

verus! {

use crate::money::FEE_UNITS;
use crate::money::PAYOUT_THRESHOLD_UNITS;
use crate::money::UNITS_PER_COIN;
use crate::money::valid_amount;
use crate::rpc::AuthToken;
use crate::rpc::FatalError;
use crate::rpc::RpcRequest;
use crate::rpc::RpcValue;
use crate::rpc::SpecValue;
use crate::rpc::pay_request;
use crate::rpc::payout_table;
use crate::rpc::views_of;

/// One event from the block-notification feed, reduced to what the engine
/// reads: a new block's hash, an unexpected message, or a feed failure.
#[derive(Debug, Clone, PartialEq, Eq)]
pub enum FeedEvent {
    Block(String),
    Unexpected,
    Failed(String),
}

/// Extracts the new block's hash from a feed event; anything else is a
/// fatal feed error.
pub fn gethash(msg: FeedEvent) -> (r: Result<String, FatalError>)
    ensures
        (match msg {
            FeedEvent::Block(h) => r is Ok && r->Ok_0@ == h@,
            FeedEvent::Unexpected => r is Err && r->Err_0 is Feed,
            FeedEvent::Failed(e) => r == Result::<String, FatalError>::Err(FatalError::Feed(e)),
        }),
{
    match msg {
        FeedEvent::Block(h) => Result::Ok(h),
        FeedEvent::Unexpected => Result::Err(
            FatalError::Feed("got an unexpected value from the notification feed".to_owned()),
        ),
        FeedEvent::Failed(e) => Result::Err(FatalError::Feed(e)),
    }
}

/// Decides whether a balance triggers a payout: only a balance strictly
/// above the threshold does, and then the payout call disburses the
/// balance minus the flat fee.
pub fn scan(balance: u64) -> (r: Option<RpcRequest>)
    requires
        valid_amount(balance),
    ensures
        r is Some <==> balance > PAYOUT_THRESHOLD_UNITS,
        r is Some ==> (r->Some_0).method@ == "sendmany"@ && views_of((r->Some_0).params@) == seq![
            SpecValue::Str(Seq::<char>::empty()),
            SpecValue::Table(payout_table(balance - FEE_UNITS)),
            SpecValue::Num(UNITS_PER_COIN as int),
        ],
{
    if balance > PAYOUT_THRESHOLD_UNITS {
        Option::Some(pay_request(balance))
    } else {
        Option::None
    }
}

/// Where the engine stands between events.
#[derive(Debug, Clone, PartialEq, Eq)]
pub enum EnginePhase {
    /// Subscribed and waiting for the next block notification.
    Listening,
    /// A balance query is in flight.
    AwaitingBalance,
    /// A payout submission is in flight.
    AwaitingPayout,
    /// A fatal condition was met; nothing more is processed.
    Terminated,
}

/// One message handed to the engine by its event loop.
#[derive(Debug, PartialEq, Eq)]
pub enum EngineMsg {
    Notification(FeedEvent),
    BalanceReply(Result<RpcValue, FatalError>),
    PayoutReply(Result<RpcValue, FatalError>),
}

/// What the engine asks its event loop to do next.
#[derive(Debug, Clone, PartialEq, Eq)]
pub enum EngineCommand {
    /// Wait for the next notification.
    Wait,
    /// Issue the balance query and hand back its unpacked reply.
    QueryBalance,
    /// Issue this payout call and hand back its unpacked reply.
    SubmitPayout(RpcRequest),
    /// Report the fatal condition and end the process with status one.
    Halt,
}

/// The payout engine.
#[derive(Debug, Clone, PartialEq, Eq)]
pub struct Engine {
    pub phase: EnginePhase,
}

impl Engine {
    /// A fresh engine, listening.
    pub fn new() -> (e: Engine)
        ensures
            e.phase is Listening,
    {
        Engine { phase: EnginePhase::Listening }
    }

    /// Feeds one message to the engine and takes its next command.
    ///
    /// A well-formed notification in the listening phase commands the
    /// balance query; a numeric balance reply commands a payout exactly
    /// when it is strictly above the threshold; a textual payout reply
    /// completes the cycle. Every fatal reply or event, every result of
    /// an unexpected shape, and every message out of protocol order
    /// terminates the engine with a halt command. A balance query is
    /// never commanded outside the listening phase, so payout decisions
    /// for successive notifications cannot overlap.
    pub fn step(&mut self, msg: EngineMsg) -> (cmd: EngineCommand)
        ensures
            old(self).phase is Listening && msg is Notification ==> (match msg->Notification_0 {
                FeedEvent::Block(_) => final(self).phase is AwaitingBalance
                    && cmd is QueryBalance,
                _ => final(self).phase is Terminated && cmd is Halt,
            }),
            old(self).phase is AwaitingBalance && msg is BalanceReply ==> (
            match msg->BalanceReply_0 {
                Result::Ok(v) => (match v {
                    RpcValue::Num(b) => {
                        if valid_amount(b) && b > PAYOUT_THRESHOLD_UNITS {
                            &&& final(self).phase is AwaitingPayout
                            &&& cmd is SubmitPayout
                            &&& (cmd->SubmitPayout_0).method@ == "sendmany"@
                            &&& views_of((cmd->SubmitPayout_0).params@) == seq![
                                SpecValue::Str(Seq::<char>::empty()),
                                SpecValue::Table(payout_table(b - FEE_UNITS)),
                                SpecValue::Num(UNITS_PER_COIN as int),
                            ]
                        } else if valid_amount(b) {
                            final(self).phase is Listening && cmd is Wait
                        } else {
                            final(self).phase is Terminated && cmd is Halt
                        }
                    },
                    _ => final(self).phase is Terminated && cmd is Halt,
                }),
                Result::Err(_) => final(self).phase is Terminated && cmd is Halt,
            }),
            old(self).phase is AwaitingPayout && msg is PayoutReply ==> (
            match msg->PayoutReply_0 {
                Result::Ok(v) => (match v {
                    RpcValue::Str(_) => final(self).phase is Listening && cmd is Wait,
                    _ => final(self).phase is Terminated && cmd is Halt,
                }),
                Result::Err(_) => final(self).phase is Terminated && cmd is Halt,
            }),
            old(self).phase is Listening && !(msg is Notification) ==> final(self).phase
                is Terminated && cmd is Halt,
            old(self).phase is AwaitingBalance && !(msg is BalanceReply) ==> final(self).phase
                is Terminated && cmd is Halt,
            old(self).phase is AwaitingPayout && !(msg is PayoutReply) ==> final(self).phase
                is Terminated && cmd is Halt,
            old(self).phase is Terminated ==> final(self).phase is Terminated && cmd is Halt,
            cmd is QueryBalance ==> old(self).phase is Listening && final(self).phase
                is AwaitingBalance,
            cmd is SubmitPayout ==> old(self).phase is AwaitingBalance && final(self).phase
                is AwaitingPayout,
            final(self).phase is Listening ==> cmd is Wait,
    {
        match (&self.phase, msg) {
            (EnginePhase::Listening, EngineMsg::Notification(ev)) => {
                match gethash(ev) {
                    Result::Ok(_hash) => {
                        self.phase = EnginePhase::AwaitingBalance;
                        EngineCommand::QueryBalance
                    },
                    Result::Err(_e) => {
                        self.phase = EnginePhase::Terminated;
                        EngineCommand::Halt
                    },
                }
            },
            (EnginePhase::AwaitingBalance, EngineMsg::BalanceReply(reply)) => {
                match reply {
                    Result::Ok(v) => {
                        match crate::rpc::decode_amount(v) {
                            Result::Ok(b) => {
                                if b <= crate::money::MAX_AMOUNT_UNITS {
                                    match scan(b) {
                                        Option::Some(req) => {
                                            self.phase = EnginePhase::AwaitingPayout;
                                            EngineCommand::SubmitPayout(req)
                                        },
                                        Option::None => {
                                            self.phase = EnginePhase::Listening;
                                            EngineCommand::Wait
                                        },
                                    }
                                } else {
                                    self.phase = EnginePhase::Terminated;
                                    EngineCommand::Halt
                                }
                            },
                            Result::Err(_e) => {
                                self.phase = EnginePhase::Terminated;
                                EngineCommand::Halt
                            },
                        }
                    },
                    Result::Err(_e) => {
                        self.phase = EnginePhase::Terminated;
                        EngineCommand::Halt
                    },
                }
            },
            (EnginePhase::AwaitingPayout, EngineMsg::PayoutReply(reply)) => {
                match reply {
                    Result::Ok(v) => {
                        match crate::rpc::decode_text(v) {
                            Result::Ok(_txid) => {
                                self.phase = EnginePhase::Listening;
                                EngineCommand::Wait
                            },
                            Result::Err(_e) => {
                                self.phase = EnginePhase::Terminated;
                                EngineCommand::Halt
                            },
                        }
                    },
                    Result::Err(_e) => {
                        self.phase = EnginePhase::Terminated;
                        EngineCommand::Halt
                    },
                }
            },
            _ => {
                self.phase = EnginePhase::Terminated;
                EngineCommand::Halt
            },
        }
    }
}

/// The compiled-in wallet endpoint and credentials the engine runs with.
pub fn configured_auth() -> (a: AuthToken)
    ensures
        a.url@ == crate::rpc::url_chars("127.0.0.1"@, 51725, "pool_accounting"@),
        a.user@ == "user"@,
        a.password@ == "password"@,
{
    AuthToken::new().target("127.0.0.1", 51725, "pool_accounting").credentials("user", "password")
}

} // verus!
