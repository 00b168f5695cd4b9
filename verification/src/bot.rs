//! The interpreter: matches an incoming chat message against the configured
//! commands, walks the matched command's actions, and on failure falls back
//! to the configured error handler, exactly once. The chat transport and the
//! waiting itself live with the caller, which performs each action this
//! module hands out and feeds the outcome back.
//!
//! Also here: the keyed delay registry, the debouncer behind the `Delay`
//! action, and the template renderer for the `Respond` action.

use vstd::prelude::*;

use crate::config::{Action, CommandTrigger, Config, Messages};
use crate::server;

verus! {

/// Faults of one interpretation, as the error handler sees them.
#[derive(Debug)]
pub enum Error {
    /// The chat platform refused a reply; the payload is its rendered
    /// description.
    RequestError(String),
    /// A newer delay under the same key preempted this command.
    Cancelled,
    /// No configured trigger matched the message.
    CommandNotFound,
    /// The command channel failed.
    ServerError(server::Error),
}

/// Where an interpretation stands.
#[derive(Debug)]
pub enum Phase {
    /// Running the matched command's actions.
    Primary { cmd: usize, idx: usize },
    /// Running the generic error handler's actions.
    Fallback { idx: usize },
    /// Finished: all actions ran, or the run was abandoned.
    Done,
}

/// Whether a trigger fires on a message with the given text body.
pub open spec fn trigger_fires(trigger: CommandTrigger, text: Option<Seq<char>>) -> bool {
    match trigger {
        CommandTrigger::ExactMessage { text: expected } => text matches Some(actual) && actual
            == expected@,
    }
}

/// The text body of an optional message, as a sequence of characters.
pub open spec fn text_view(text: Option<String>) -> Option<Seq<char>> {
    match text {
        Option::Some(s) => Some(s@),
        Option::None => None,
    }
}

/// Evaluate one trigger against a message's text body. A message without a
/// text body fires no trigger.
pub fn trigger_matches(trigger: &CommandTrigger, text: &Option<String>) -> (b: bool)
    ensures
        b == trigger_fires(*trigger, text_view(*text)),
{
    match trigger {
        CommandTrigger::ExactMessage { text: expected } => {
            match text {
                None => false,
                Some(actual) => *expected == *actual,
            }
        },
    }
}

fn is_cancelled(e: &Error) -> (b: bool)
    ensures
        b == (e is Cancelled),
{
    match e {
        Error::Cancelled => true,
        _ => false,
    }
}

/// One interpretation of one incoming message. The caller drives it: take
/// `current_action`, perform it, feed the outcome to `advance`, until no
/// action is left.
pub struct Interpreter {
    pub cfg: Config,
    pub message_text: Option<String>,
    pub last_error: Option<Error>,
    pub phase: Phase,
}

impl Interpreter {
    /// The phase's indices stay within the configuration they point into.
    pub open spec fn wf(&self) -> bool {
        &&& (self.phase matches Phase::Primary { cmd, idx } ==> cmd < self.cfg.commands@.len()
            && idx <= self.cfg.commands@[cmd as int].1.actions@.len())
        &&& (self.phase matches Phase::Fallback { idx } ==> idx
            <= self.cfg.handlers.generic_error.actions@.len())
    }

    /// Match the message against the configured commands, in insertion
    /// order; the first firing trigger wins. With no match, the run starts
    /// on the error handler with `CommandNotFound` as the error.
    pub fn new(cfg: Config, message_text: Option<String>) -> (it: Interpreter)
        ensures
            it.wf(),
            it.cfg == cfg,
            it.message_text == message_text,
            !(it.phase is Done),
            (it.phase matches Phase::Primary { cmd, idx } ==> idx == 0 && cmd
                < cfg.commands@.len() && trigger_fires(
                cfg.commands@[cmd as int].1.trigger,
                text_view(message_text),
            ) && (forall|t: int|
                0 <= t < cmd ==> !trigger_fires(
                    (#[trigger] cfg.commands@[t]).1.trigger,
                    text_view(message_text),
                )) && it.last_error is None),
            (it.phase matches Phase::Fallback { idx } ==> idx == 0 && (forall|t: int|
                0 <= t < cfg.commands@.len() ==> !trigger_fires(
                    (#[trigger] cfg.commands@[t]).1.trigger,
                    text_view(message_text),
                )) && (it.last_error matches Some(e) && e is CommandNotFound)),
    {
        let n = cfg.commands.len();
        let mut i: usize = 0;
        let mut chosen: Option<usize> = None;
        while i < n
            invariant
                i <= n,
                n == cfg.commands@.len(),
                chosen is None ==> forall|t: int|
                    0 <= t < i ==> !trigger_fires(
                        (#[trigger] cfg.commands@[t]).1.trigger,
                        text_view(message_text),
                    ),
                chosen matches Some(c) ==> (c < n && trigger_fires(
                    cfg.commands@[c as int].1.trigger,
                    text_view(message_text),
                ) && (forall|t: int|
                    0 <= t < c ==> !trigger_fires(
                        (#[trigger] cfg.commands@[t]).1.trigger,
                        text_view(message_text),
                    ))),
            decreases n - i,
        {
            if chosen.is_none() && trigger_matches(&cfg.commands[i].1.trigger, &message_text) {
                chosen = Some(i);
            }
            i = i + 1;
        }
        match chosen {
            Some(c) => Interpreter {
                cfg,
                message_text,
                last_error: None,
                phase: Phase::Primary { cmd: c, idx: 0 },
            },
            None => Interpreter {
                cfg,
                message_text,
                last_error: Some(Error::CommandNotFound),
                phase: Phase::Fallback { idx: 0 },
            },
        }
    }

    /// The action to perform next, if one is left in the running list.
    pub fn current_action(&self) -> (a: Option<&Action>)
        requires
            self.wf(),
        ensures
            (match self.phase {
                Phase::Primary { cmd, idx } => {
                    if idx < self.cfg.commands@[cmd as int].1.actions@.len() {
                        a matches Some(act) && *act
                            == self.cfg.commands@[cmd as int].1.actions@[idx as int]
                    } else {
                        a is None
                    }
                },
                Phase::Fallback { idx } => {
                    if idx < self.cfg.handlers.generic_error.actions@.len() {
                        a matches Some(act) && *act
                            == self.cfg.handlers.generic_error.actions@[idx as int]
                    } else {
                        a is None
                    }
                },
                Phase::Done => a is None,
            }),
    {
        match &self.phase {
            Phase::Primary { cmd, idx } => {
                let actions = &self.cfg.commands[*cmd].1.actions;
                if *idx < actions.len() {
                    Some(&actions[*idx])
                } else {
                    None
                }
            },
            Phase::Fallback { idx } => {
                let actions = &self.cfg.handlers.generic_error.actions;
                if *idx < actions.len() {
                    Some(&actions[*idx])
                } else {
                    None
                }
            },
            Phase::Done => None,
        }
    }

    /// Record one action's outcome. Success moves to the next action. A
    /// `Cancelled` failure abandons the run silently. Any other failure
    /// during the command's own actions stores the error and starts the
    /// error handler; one during the error handler abandons the run, so the
    /// handler never runs twice.
    pub fn advance(&mut self, outcome: Result<(), Error>)
        requires
            old(self).wf(),
            !(old(self).phase is Done),
            (old(self).phase matches Phase::Primary { cmd, idx } ==> idx < old(
                self,
            ).cfg.commands@[cmd as int].1.actions@.len()),
            (old(self).phase matches Phase::Fallback { idx } ==> idx < old(
                self,
            ).cfg.handlers.generic_error.actions@.len()),
        ensures
            final(self).wf(),
            final(self).cfg == old(self).cfg,
            final(self).message_text == old(self).message_text,
            outcome is Ok ==> (final(self).last_error == old(self).last_error && (old(
                self,
            ).phase matches Phase::Primary { cmd, idx } ==> final(self).phase == (Phase::Primary {
                cmd,
                idx: (idx + 1) as usize,
            })) && (old(self).phase matches Phase::Fallback { idx } ==> final(self).phase
                == (Phase::Fallback { idx: (idx + 1) as usize }))),
            outcome matches Err(e) ==> (if e is Cancelled {
                final(self).phase is Done && final(self).last_error == old(self).last_error
            } else if old(self).phase is Primary {
                final(self).phase == (Phase::Fallback { idx: 0 }) && final(self).last_error
                    == Some(e)
            } else {
                final(self).phase is Done && final(self).last_error == old(self).last_error
            }),
    {
        match outcome {
            Ok(_) => {
                match &self.phase {
                    Phase::Primary { cmd, idx } => {
                        let c = *cmd;
                        let i = *idx;
                        let bound = self.cfg.commands[c].1.actions.len();
                        assert(i < bound);
                        self.phase = Phase::Primary { cmd: c, idx: i + 1 };
                    },
                    Phase::Fallback { idx } => {
                        let i = *idx;
                        let bound = self.cfg.handlers.generic_error.actions.len();
                        assert(i < bound);
                        self.phase = Phase::Fallback { idx: i + 1 };
                    },
                    Phase::Done => {
                    },
                }
            },
            Err(e) => {
                if is_cancelled(&e) {
                    self.phase = Phase::Done;
                } else {
                    match &self.phase {
                        Phase::Primary { .. } => {
                            self.last_error = Some(e);
                            self.phase = Phase::Fallback { idx: 0 };
                        },
                        _ => {
                            self.phase = Phase::Done;
                        },
                    }
                }
            },
        }
    }

    /// Render a `Respond` template against this run's last error and the
    /// channel's current online flag.
    pub fn render(&self, template: &String, online: bool) -> (r: String)
        ensures
            r@ == spec_render(template@, self.last_error, online, self.cfg),
    {
        render_template(template, &self.last_error, online, &self.cfg)
    }
}

/// Replace every occurrence of `pat` in `s` with `to`, left to right and
/// without revisiting replaced text.
pub open spec fn spec_replace(s: Seq<char>, pat: Seq<char>, to: Seq<char>) -> Seq<char>
    decreases s.len(),
    when pat.len() >= 1
{
    if s.len() < pat.len() {
        s
    } else if s.take(pat.len() as int) == pat {
        to + spec_replace(s.skip(pat.len() as int), pat, to)
    } else {
        seq![s[0]] + spec_replace(s.skip(1), pat, to)
    }
}

/// The text the `{error}` token renders to, by error kind. Transport-level
/// faults carry their description behind the configured prefix; the other
/// kinds render as their configured message alone.
pub open spec fn spec_format_error(error: Error, m: Messages) -> Seq<char> {
    match error {
        Error::RequestError(_) => m.telegram_error@,
        Error::Cancelled => m.command_canceled@,
        Error::CommandNotFound => m.command_not_found@,
        Error::ServerError(se) => match se {
            server::Error::NotImplemented => m.not_implemented@,
            server::Error::Io(d) => m.internal_error@ + ": "@ + d@,
            server::Error::JsonError(d) => m.internal_error@ + ": "@ + d@,
            server::Error::MpcResponseTimeout => m.internal_error@ + ": MpcResponseTimeout"@,
            server::Error::IRAckTimeout => m.no_response_from_rc@,
            server::Error::MpcGenericError(d) => m.internal_error@ + ": "@ + d@,
            server::Error::CanNotSendWhenOffline => m.can_not_send_when_offline@,
        },
    }
}

/// A rendered template: `{error}` is substituted only while an error is
/// stored; `{statusMessage}` is substituted with the online or offline
/// message; anything else passes through unchanged.
pub open spec fn spec_render(
    template: Seq<char>,
    last_error: Option<Error>,
    online: bool,
    cfg: Config,
) -> Seq<char> {
    let after_error = match last_error {
        Option::Some(e) => spec_replace(template, "{error}"@, spec_format_error(e, cfg.messages)),
        Option::None => template,
    };
    let status = if online {
        cfg.server.online_message@
    } else {
        cfg.server.offline_message@
    };
    spec_replace(after_error, "{statusMessage}"@, status)
}

/// Whether the characters of `pat` stand in `s` at position `i`.
fn str_matches_at(s: &str, i: usize, pat: &str, n: usize, pn: usize) -> (b: bool)
    requires
        n == s@.len(),
        pn == pat@.len(),
        i <= n,
    ensures
        b == (i + pat@.len() <= s@.len() && s@.subrange(i as int, i + pat@.len()) == pat@),
{
    if pn > n - i {
        return false;
    }
    let mut t: usize = 0;
    while t < pn
        invariant
            t <= pn,
            n == s@.len(),
            pn == pat@.len(),
            i + pn <= n,
            n <= usize::MAX,
            forall|q: int| 0 <= q < t ==> s@[i + q] == pat@[q],
        decreases pn - t,
    {
        if s.get_char(i + t) != pat.get_char(t) {
            proof {
                let sub = s@.subrange(i as int, i + pat@.len());
                assert(sub[t as int] == s@[i + t]);
            }
            return false;
        }
        t = t + 1;
    }
    proof {
        assert(s@.subrange(i as int, i + pat@.len()) =~= pat@);
    }
    true
}

/// Replace every occurrence of `pat` in `s` with `to`, left to right.
pub fn replace_all(s: &str, pat: &str, to: &str) -> (r: String)
    requires
        pat@.len() >= 1,
    ensures
        r@ == spec_replace(s@, pat@, to@),
{
    let n = s.unicode_len();
    let pn = pat.unicode_len();
    let mut out = String::new();
    let mut i: usize = 0;
    proof {
        assert(s@.skip(0) =~= s@);
        assert(out@ + spec_replace(s@, pat@, to@) =~= spec_replace(s@, pat@, to@));
    }
    while i < n
        invariant
            i <= n,
            n == s@.len(),
            pn == pat@.len(),
            pn >= 1,
            out@ + spec_replace(s@.skip(i as int), pat@, to@) == spec_replace(s@, pat@, to@),
        decreases n - i,
    {
        let ghost rem = s@.skip(i as int);
        if str_matches_at(s, i, pat, n, pn) {
            out.append(to);
            proof {
                assert(rem.take(pat@.len() as int) =~= s@.subrange(i as int, i + pat@.len()));
                assert(rem.skip(pat@.len() as int) =~= s@.skip(i + pn));
                assert(spec_replace(rem, pat@, to@) == to@ + spec_replace(
                    s@.skip(i + pn),
                    pat@,
                    to@,
                ));
            }
            i = i + pn;
        } else {
            let piece = s.substring_char(i, i + 1);
            out.append(piece);
            proof {
                if rem.len() >= pat@.len() {
                    assert(rem.take(pat@.len() as int) =~= s@.subrange(
                        i as int,
                        i + pat@.len(),
                    ));
                }
                assert(rem.skip(1) =~= s@.skip(i + 1));
                assert(seq![rem[0]] =~= s@.subrange(i as int, i + 1));
                assert(spec_replace(rem, pat@, to@) == seq![rem[0]] + spec_replace(
                    s@.skip(i + 1),
                    pat@,
                    to@,
                ));
            }
            i = i + 1;
        }
    }
    proof {
        assert(s@.skip(n as int) =~= Seq::<char>::empty());
        assert(spec_replace(s@.skip(n as int), pat@, to@) == s@.skip(n as int));
        assert(out@ =~= spec_replace(s@, pat@, to@));
    }
    out
}

/// Render the `{error}` token's text for one error.
pub fn format_error(error: &Error, m: &Messages) -> (r: String)
    ensures
        r@ == spec_format_error(*error, *m),
{
    match error {
        Error::RequestError(_) => m.telegram_error.clone(),
        Error::Cancelled => m.command_canceled.clone(),
        Error::CommandNotFound => m.command_not_found.clone(),
        Error::ServerError(se) => {
            match se {
                server::Error::NotImplemented => m.not_implemented.clone(),
                server::Error::Io(d) => {
                    let mut r = m.internal_error.clone();
                    r.append(": ");
                    r.append(d.as_str());
                    r
                },
                server::Error::JsonError(d) => {
                    let mut r = m.internal_error.clone();
                    r.append(": ");
                    r.append(d.as_str());
                    r
                },
                server::Error::MpcResponseTimeout => {
                    let mut r = m.internal_error.clone();
                    r.append(": MpcResponseTimeout");
                    r
                },
                server::Error::IRAckTimeout => m.no_response_from_rc.clone(),
                server::Error::MpcGenericError(d) => {
                    let mut r = m.internal_error.clone();
                    r.append(": ");
                    r.append(d.as_str());
                    r
                },
                server::Error::CanNotSendWhenOffline => m.can_not_send_when_offline.clone(),
            }
        },
    }
}

/// Render a template against a stored error, the online flag and the
/// configured message texts.
pub fn render_template(
    template: &String,
    last_error: &Option<Error>,
    online: bool,
    cfg: &Config,
) -> (r: String)
    ensures
        r@ == spec_render(template@, *last_error, online, *cfg),
{
    proof {
        reveal_strlit("{error}");
        reveal_strlit("{statusMessage}");
    }
    let stage1 = match last_error {
        Some(e) => {
            let msg = format_error(e, &cfg.messages);
            replace_all(template.as_str(), "{error}", msg.as_str())
        },
        None => template.clone(),
    };
    let status = if online {
        cfg.server.online_message.as_str()
    } else {
        cfg.server.offline_message.as_str()
    };
    replace_all(stage1.as_str(), "{statusMessage}", status)
}

#[verifier::external_type_specification]
#[verifier::external_body]
pub struct ExCancellationToken(tokio_util::sync::CancellationToken);

/// Relies on `tokio_util::sync::CancellationToken::new`: a fresh token, not
/// yet cancelled and tied to no other.
#[verifier::external_body]
fn token_new() -> tokio_util::sync::CancellationToken {
    tokio_util::sync::CancellationToken::new()
}

/// Relies on `CancellationToken::clone`: the clone observes the same
/// cancellation as the original.
#[verifier::external_body]
fn token_clone(t: &tokio_util::sync::CancellationToken) -> tokio_util::sync::CancellationToken {
    t.clone()
}

/// Relies on `CancellationToken::cancel`: cancels the token, waking every
/// holder waiting on it or any of its clones.
#[verifier::external_body]
fn token_cancel(t: &tokio_util::sync::CancellationToken) {
    t.cancel();
}

/// Some entry of `es` holds the key `k`.
pub open spec fn entries_have_key(es: Seq<DelayEntry>, k: Seq<char>) -> bool {
    exists|i: int| 0 <= i < es.len() && (#[trigger] es[i]).key@ == k
}

/// The generation of the entry of `es` that holds the key `k`.
pub open spec fn gen_at(es: Seq<DelayEntry>, k: Seq<char>) -> u64 {
    es[choose|i: int| 0 <= i < es.len() && (#[trigger] es[i]).key@ == k].generation
}

/// One live delay: its key, its generation, and the token that preempts it.
pub struct DelayEntry {
    pub key: String,
    pub generation: u64,
    pub token: tokio_util::sync::CancellationToken,
}

/// The keyed debouncer. Each key holds at most one live delay; scheduling a
/// new one under the same key cancels and replaces the old one. The caller
/// does the waiting: `begin` hands it the token to race against its sleep,
/// and `finish` tells it whether its generation still owned the key.
pub struct Delay {
    pub entries: Vec<DelayEntry>,
    pub next_gen: u64,
}

impl Delay {
    /// Keys are unique, and every queued generation is older than the next
    /// one to hand out.
    pub open spec fn wf(&self) -> bool {
        &&& forall|i: int, j: int| #![trigger self.entries@[i], self.entries@[j]]
            0 <= i < j < self.entries@.len() ==> self.entries@[i].key@ != self.entries@[j].key@
        &&& forall|i: int|
            0 <= i < self.entries@.len() ==> (#[trigger] self.entries@[i]).generation
                < self.next_gen
        &&& self.next_gen >= 1
    }

    /// Whether a delay is live under this key.
    pub open spec fn has_key(&self, k: Seq<char>) -> bool {
        entries_have_key(self.entries@, k)
    }

    /// The generation of the live delay under this key.
    pub open spec fn gen_of(&self, k: Seq<char>) -> u64 {
        gen_at(self.entries@, k)
    }

    /// An empty registry.
    pub fn new() -> (d: Delay)
        ensures
            d.wf(),
            forall|k: Seq<char>| !(#[trigger] d.has_key(k)),
            d.next_gen == 1u64,
    {
        Delay { entries: Vec::new(), next_gen: 1 }
    }

    /// Schedule a delay under `key`: cancel and replace any live delay with
    /// that key, and hand back the new generation and the token the caller
    /// races its sleep against.
    pub fn begin(&mut self, key: &String) -> (r: (u64, tokio_util::sync::CancellationToken))
        requires
            old(self).wf(),
            old(self).next_gen < u64::MAX,
        ensures
            final(self).wf(),
            r.0 == old(self).next_gen,
            final(self).next_gen == old(self).next_gen + 1,
            final(self).has_key(key@),
            final(self).gen_of(key@) == r.0,
            forall|k2: Seq<char>|
                k2 != key@ ==> #[trigger] final(self).has_key(k2) == old(self).has_key(k2),
            forall|k2: Seq<char>|
                k2 != key@ && old(self).has_key(k2) ==> #[trigger] final(self).gen_of(k2) == old(
                    self,
                ).gen_of(k2),
    {
        let g = self.next_gen;
        self.next_gen = g + 1;
        let token = token_new();
        let held = token_clone(&token);
        let found = self.find_key(key);
        let ghost pre = self.entries@;
        match found {
            Some(f) => {
                token_cancel(&self.entries[f].token);
                let _prior = self.entries.remove(f);
                self.entries.push(DelayEntry { key: key.clone(), generation: g, token: held });
                proof {
                    let post = self.entries@;
                    let trimmed = pre.remove(f as int);
                    assert(post.take(post.len() - 1) =~= trimmed);
                    lemma_key_frame_replace(pre, post, f as int, key@);
                    assert(post[post.len() - 1].key@ == key@);
                    lemma_unique_key_choose(post, post.len() - 1, key@);
                    assert(self.gen_of(key@) == g);
                    assert forall|i: int| 0 <= i < post.len() implies (#[trigger] post[i]).generation
                        < self.next_gen by {
                        if i < post.len() - 1 {
                            assert(post[i] == trimmed[i]);
                            if i < f {
                                assert(trimmed[i] == pre[i]);
                            } else {
                                assert(trimmed[i] == pre[i + 1]);
                            }
                        }
                    }
                    assert forall|k2: Seq<char>|
                        k2 != key@ && old(self).has_key(k2) implies #[trigger] self.gen_of(k2)
                        == old(self).gen_of(k2) by {
                        let a = choose|i: int|
                            0 <= i < pre.len() && (#[trigger] pre[i]).key@ == k2;
                        assert(a != f);
                        let b: int = if a < f {
                            a
                        } else {
                            a - 1
                        };
                        assert(post[b] == trimmed[b]);
                        assert(trimmed[b] == pre[a]);
                        lemma_gen_at_agree(pre, post, k2, a, b);
                    }
                }
            },
            None => {
                self.entries.push(DelayEntry { key: key.clone(), generation: g, token: held });
                proof {
                    let post = self.entries@;
                    assert(post.take(post.len() - 1) =~= pre);
                    lemma_key_frame_push(pre, post, key@);
                    assert(post[post.len() - 1].key@ == key@);
                    lemma_unique_key_choose(post, post.len() - 1, key@);
                    assert(self.gen_of(key@) == g);
                    assert forall|i: int| 0 <= i < post.len() implies (#[trigger] post[i]).generation
                        < self.next_gen by {
                        if i < post.len() - 1 {
                            assert(post[i] == pre[i]);
                        }
                    }
                    assert forall|k2: Seq<char>|
                        k2 != key@ && old(self).has_key(k2) implies #[trigger] self.gen_of(k2)
                        == old(self).gen_of(k2) by {
                        let a = choose|i: int|
                            0 <= i < pre.len() && (#[trigger] pre[i]).key@ == k2;
                        assert(post[a] == pre[a]);
                        lemma_gen_at_agree(pre, post, k2, a, a);
                    }
                }
            },
        }
        (g, token)
    }

    /// Report a delay's sleep as elapsed. The entry leaves the registry only
    /// if this generation still owns the key; a superseded generation finds
    /// the key held by a newer one and reports failure.
    pub fn finish(&mut self, key: &String, generation: u64) -> (ours: bool)
        requires
            old(self).wf(),
        ensures
            final(self).wf(),
            final(self).next_gen == old(self).next_gen,
            ours == (old(self).has_key(key@) && old(self).gen_of(key@) == generation),
            ours ==> !final(self).has_key(key@),
            !ours ==> final(self).entries@ == old(self).entries@,
            forall|k2: Seq<char>|
                k2 != key@ ==> #[trigger] final(self).has_key(k2) == old(self).has_key(k2),
            forall|k2: Seq<char>|
                k2 != key@ && old(self).has_key(k2) ==> #[trigger] final(self).gen_of(k2) == old(
                    self,
                ).gen_of(k2),
    {
        let found = self.find_key(key);
        let ghost pre = self.entries@;
        match found {
            Some(f) => {
                proof {
                    lemma_unique_key_choose(pre, f as int, key@);
                    assert(old(self).gen_of(key@) == pre[f as int].generation);
                }
                if self.entries[f].generation == generation {
                    let _gone = self.entries.remove(f);
                    proof {
                        let post = self.entries@;
                        lemma_key_frame_remove(pre, post, f as int, key@);
                        assert forall|i: int|
                            0 <= i < post.len() implies (#[trigger] post[i]).generation
                            < self.next_gen by {
                            if i < f {
                                assert(post[i] == pre[i]);
                            } else {
                                assert(post[i] == pre[i + 1]);
                            }
                        }
                        assert forall|k2: Seq<char>|
                            k2 != key@ && old(self).has_key(k2) implies #[trigger] self.gen_of(k2)
                            == old(self).gen_of(k2) by {
                            let a = choose|i: int|
                                0 <= i < pre.len() && (#[trigger] pre[i]).key@ == k2;
                            assert(a != f);
                            let b: int = if a < f {
                                a
                            } else {
                                a - 1
                            };
                            assert(post[b] == pre[a]);
                            lemma_gen_at_agree(pre, post, k2, a, b);
                        }
                    }
                    true
                } else {
                    false
                }
            },
            None => false,
        }
    }

    /// The index of the live delay under `key`, if any.
    fn find_key(&self, key: &String) -> (found: Option<usize>)
        ensures
            found matches Some(f) ==> (f < self.entries@.len() && self.entries@[f as int].key@
                == key@),
            found is None ==> forall|t: int|
                0 <= t < self.entries@.len() ==> (#[trigger] self.entries@[t]).key@ != key@,
            found is None <==> !self.has_key(key@),
    {
        let n = self.entries.len();
        let mut i: usize = 0;
        let mut found: Option<usize> = None;
        while i < n
            invariant
                i <= n,
                n == self.entries@.len(),
                found is None ==> forall|t: int|
                    0 <= t < i ==> (#[trigger] self.entries@[t]).key@ != key@,
                found matches Some(f) ==> (f < n && self.entries@[f as int].key@ == key@),
            decreases n - i,
        {
            if found.is_none() && self.entries[i].key == *key {
                found = Some(i);
            }
            i = i + 1;
        }
        found
    }
}

/// With unique keys, the chosen witness for a key is the found index.
proof fn lemma_unique_key_choose(es: Seq<DelayEntry>, f: int, k: Seq<char>)
    requires
        0 <= f < es.len(),
        es[f].key@ == k,
        forall|i: int, j: int| #![trigger es[i], es[j]]
            0 <= i < j < es.len() ==> es[i].key@ != es[j].key@,
    ensures
        forall|i: int| 0 <= i < es.len() && (#[trigger] es[i]).key@ == k ==> i == f,
{
    assert forall|i: int| 0 <= i < es.len() && (#[trigger] es[i]).key@ == k implies i == f by {
        if i < f {
            assert(es[i].key@ != es[f].key@);
        } else if i > f {
            assert(es[f].key@ != es[i].key@);
        }
    }
}

/// When two registries hold the entry for `k2` as the same value, the
/// generation read under `k2` agrees.
proof fn lemma_gen_at_agree(pre: Seq<DelayEntry>, post: Seq<DelayEntry>, k2: Seq<char>, a: int, b: int)
    requires
        forall|i: int, j: int| #![trigger pre[i], pre[j]]
            0 <= i < j < pre.len() ==> pre[i].key@ != pre[j].key@,
        forall|i: int, j: int| #![trigger post[i], post[j]]
            0 <= i < j < post.len() ==> post[i].key@ != post[j].key@,
        0 <= a < pre.len(),
        pre[a].key@ == k2,
        0 <= b < post.len(),
        post[b] == pre[a],
    ensures
        gen_at(post, k2) == gen_at(pre, k2),
{
    lemma_unique_key_choose(pre, a, k2);
    lemma_unique_key_choose(post, b, k2);
}

/// Removing the unique entry under `k` leaves every other key alone.
proof fn lemma_key_frame_remove(pre: Seq<DelayEntry>, post: Seq<DelayEntry>, f: int, k: Seq<char>)
    requires
        0 <= f < pre.len(),
        pre[f].key@ == k,
        forall|i: int, j: int| #![trigger pre[i], pre[j]]
            0 <= i < j < pre.len() ==> pre[i].key@ != pre[j].key@,
        post == pre.remove(f),
    ensures
        forall|i: int, j: int| #![trigger post[i], post[j]]
            0 <= i < j < post.len() ==> post[i].key@ != post[j].key@,
        forall|i: int| 0 <= i < post.len() ==> (#[trigger] post[i]).key@ != k,
        forall|k2: Seq<char>|
            k2 != k ==> (#[trigger] entries_have_key(post, k2)) == entries_have_key(pre, k2),
        forall|i: int|
            0 <= i < post.len() ==> exists|j: int|
                0 <= j < pre.len() && (#[trigger] post[i]) == pre[j],
{
    assert forall|i: int| 0 <= i < post.len() implies exists|j: int|
        0 <= j < pre.len() && (#[trigger] post[i]) == pre[j] by {
        if i < f {
            assert(post[i] == pre[i]);
        } else {
            assert(post[i] == pre[i + 1]);
        }
    }
    assert forall|i: int| 0 <= i < post.len() implies (#[trigger] post[i]).key@ != k by {
        if i < f {
            assert(post[i] == pre[i]);
            lemma_unique_key_choose(pre, f, k);
        } else {
            assert(post[i] == pre[i + 1]);
            lemma_unique_key_choose(pre, f, k);
        }
    }
    assert forall|k2: Seq<char>| k2 != k implies (#[trigger] entries_have_key(post, k2))
        == entries_have_key(pre, k2) by {
        if entries_have_key(post, k2) {
            let i = choose|i: int| 0 <= i < post.len() && (#[trigger] post[i]).key@ == k2;
            if i < f {
                assert(pre[i].key@ == k2);
            } else {
                assert(pre[i + 1].key@ == k2);
            }
            assert(entries_have_key(pre, k2));
        }
        if entries_have_key(pre, k2) {
            let i = choose|i: int| 0 <= i < pre.len() && (#[trigger] pre[i]).key@ == k2;
            assert(i != f);
            if i < f {
                assert(post[i].key@ == k2);
            } else {
                assert(post[i - 1].key@ == k2);
            }
            assert(entries_have_key(post, k2));
        }
    }
}

/// Replacing the unique entry under `k` by a fresh one at the tail keeps
/// every other key's entry, and leaves `k` held by the fresh entry alone.
proof fn lemma_key_frame_replace(pre: Seq<DelayEntry>, post: Seq<DelayEntry>, f: int, k: Seq<char>)
    requires
        0 <= f < pre.len(),
        pre[f].key@ == k,
        forall|i: int, j: int| #![trigger pre[i], pre[j]]
            0 <= i < j < pre.len() ==> pre[i].key@ != pre[j].key@,
        post.len() == pre.len(),
        post.take(post.len() - 1) == pre.remove(f),
        post.last().key@ == k,
    ensures
        forall|i: int, j: int| #![trigger post[i], post[j]]
            0 <= i < j < post.len() ==> post[i].key@ != post[j].key@,
        forall|i: int| 0 <= i < post.len() && (#[trigger] post[i]).key@ == k ==> i == post.len() - 1,
        forall|k2: Seq<char>|
            k2 != k ==> (#[trigger] entries_have_key(post, k2)) == entries_have_key(pre, k2),
{
    let trimmed = pre.remove(f);
    lemma_key_frame_remove(pre, trimmed, f, k);
    assert forall|i: int| 0 <= i < post.len() - 1 implies (#[trigger] post[i]).key@ != k by {
        assert(post[i] == trimmed[i]);
    }
    assert forall|i: int, j: int| #![trigger post[i], post[j]]
        0 <= i < j < post.len() implies post[i].key@ != post[j].key@ by {
        if j < post.len() - 1 {
            assert(post[i] == trimmed[i] && post[j] == trimmed[j]);
        } else {
            assert(post[i] == trimmed[i]);
        }
    }
    assert forall|k2: Seq<char>| k2 != k implies (#[trigger] entries_have_key(post, k2))
        == entries_have_key(pre, k2) by {
        if entries_have_key(post, k2) {
            let i = choose|i: int| 0 <= i < post.len() && (#[trigger] post[i]).key@ == k2;
            assert(i < post.len() - 1);
            assert(trimmed[i].key@ == k2);
            assert(entries_have_key(trimmed, k2));
            assert(entries_have_key(pre, k2));
        }
        if entries_have_key(pre, k2) {
            assert(entries_have_key(trimmed, k2));
            let t = choose|t: int| 0 <= t < trimmed.len() && (#[trigger] trimmed[t]).key@ == k2;
            assert(post[t] == trimmed[t]);
            assert(entries_have_key(post, k2));
        }
    }
}

/// Appending a fresh entry under an absent key keeps every other key's
/// entry, and leaves `k` held by the fresh entry alone.
proof fn lemma_key_frame_push(pre: Seq<DelayEntry>, post: Seq<DelayEntry>, k: Seq<char>)
    requires
        forall|i: int| 0 <= i < pre.len() ==> (#[trigger] pre[i]).key@ != k,
        forall|i: int, j: int| #![trigger pre[i], pre[j]]
            0 <= i < j < pre.len() ==> pre[i].key@ != pre[j].key@,
        post.len() == pre.len() + 1,
        post.take(post.len() - 1) == pre,
        post.last().key@ == k,
    ensures
        forall|i: int, j: int| #![trigger post[i], post[j]]
            0 <= i < j < post.len() ==> post[i].key@ != post[j].key@,
        forall|i: int| 0 <= i < post.len() && (#[trigger] post[i]).key@ == k ==> i == post.len() - 1,
        forall|k2: Seq<char>|
            k2 != k ==> (#[trigger] entries_have_key(post, k2)) == entries_have_key(pre, k2),
{
    assert forall|i: int, j: int| #![trigger post[i], post[j]]
        0 <= i < j < post.len() implies post[i].key@ != post[j].key@ by {
        if j < post.len() - 1 {
            assert(post[i] == pre[i] && post[j] == pre[j]);
        } else {
            assert(post[i] == pre[i]);
        }
    }
    assert forall|k2: Seq<char>| k2 != k implies (#[trigger] entries_have_key(post, k2))
        == entries_have_key(pre, k2) by {
        if entries_have_key(post, k2) {
            let i = choose|i: int| 0 <= i < post.len() && (#[trigger] post[i]).key@ == k2;
            assert(i < post.len() - 1);
            assert(pre[i].key@ == k2);
            assert(entries_have_key(pre, k2));
        }
        if entries_have_key(pre, k2) {
            let i = choose|i: int| 0 <= i < pre.len() && (#[trigger] pre[i]).key@ == k2;
            assert(post[i] == pre[i]);
            assert(entries_have_key(post, k2));
        }
    }
}

/// Law: a superseded delay cannot finish successfully. Every generation a
/// key ever held is strictly below the registry's next one, so once `begin`
/// reschedules the key, the older generation differs from the key's current
/// one and `finish` with it reports failure.
pub proof fn lemma_generation_fresh(d: Delay, k: Seq<char>)
    requires
        d.wf(),
        d.has_key(k),
    ensures
        d.gen_of(k) < d.next_gen,
{
    let i = choose|i: int| 0 <= i < d.entries@.len() && (#[trigger] d.entries@[i]).key@ == k;
    assert(d.entries@[i].generation < d.next_gen);
}

} // verus!
