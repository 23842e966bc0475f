//! Enforcement rules: which devices to block or throttle now, and the
//! nftables commands that carry the decisions out.
use vstd::prelude::*;
use crate::net::{ip_text, ip_to_string, IpAddr};
use crate::text::{decimal, decimal_string};
use crate::types::{duplicate_strings, texts, Config, DeviceConfig};

verus! {

/// Types of enforcement actions.
pub enum ActionKind {
    BlockOutbound { destination: Option<IpAddr> },
    RateLimit { max_bytes_per_second: u64 },
    AllowOnly { domains: Vec<String> },
}

/// An enforcement action as the specifications see it.
pub enum ActionView {
    BlockOutbound(Option<IpAddr>),
    RateLimit(u64),
    AllowOnly(Seq<Seq<char>>),
}

impl View for ActionKind {
    type V = ActionView;

    open spec fn view(&self) -> ActionView {
        match self {
            ActionKind::BlockOutbound { destination } => ActionView::BlockOutbound(*destination),
            ActionKind::RateLimit { max_bytes_per_second } => ActionView::RateLimit(
                *max_bytes_per_second,
            ),
            ActionKind::AllowOnly { domains } => ActionView::AllowOnly(texts(domains@)),
        }
    }
}

/// An action to be applied via nftables.
pub struct RuleAction {
    pub mac: String,
    pub action: ActionKind,
    pub reason: String,
    /// Unix time (seconds) after which the action lapses, if any
    pub expires_at: Option<i64>,
}

/// A rule action as the specifications see it.
pub struct RuleActionView {
    pub mac: Seq<char>,
    pub action: ActionView,
    pub reason: Seq<char>,
    pub expires_at: Option<i64>,
}

impl View for RuleAction {
    type V = RuleActionView;

    open spec fn view(&self) -> RuleActionView {
        RuleActionView {
            mac: self.mac@,
            action: self.action@,
            reason: self.reason@,
            expires_at: self.expires_at,
        }
    }
}

/// The views of a list of actions.
pub open spec fn actions_view(v: Seq<RuleAction>) -> Seq<RuleActionView> {
    v.map_values(|a: RuleAction| a@)
}

// ---------------------------------------------------------------------------
// nftables commands
// ---------------------------------------------------------------------------

/// The command that empties the forward chain before the rules are applied
/// again from scratch.
pub open spec fn flush_command() -> Seq<char> {
    "nft flush chain inet hearth forward"@
}

/// The start of every rule that matches a device by its MAC.
pub open spec fn rule_prefix(mac: Seq<char>) -> Seq<char> {
    "nft add rule inet hearth forward ether saddr "@ + mac
}

/// The command of one action; a rate is given in whole kbytes/s. `applied`
/// selects the commands that are run over those that are only shown: a
/// run rate is at least 1 (a shown one may be 0), and an allow-only rule
/// gets a different note in each; a note is not run.
pub open spec fn command_spec(a: RuleActionView, applied: bool) -> Seq<char> {
    match a.action {
        ActionView::BlockOutbound(None) => rule_prefix(a.mac) + " drop"@,
        ActionView::BlockOutbound(Some(ip)) => rule_prefix(a.mac) + " ip daddr "@ + ip_text(ip)
            + " drop"@,
        ActionView::RateLimit(b) => {
            let kbps = b / 1024;
            let shown = if applied && kbps < 1 {
                1
            } else {
                kbps
            };
            rule_prefix(a.mac) + " limit rate "@ + decimal(shown as nat) + " kbytes/second accept"@
        },
        ActionView::AllowOnly(_) => if applied {
            "# Allow-only rule for "@ + a.mac + " — requires DNS resolution"@
        } else {
            "# allow-only for "@ + a.mac
        },
    }
}

/// The flush command followed by the command of each action, in order.
pub open spec fn commands_spec(actions: Seq<RuleActionView>, applied: bool) -> Seq<Seq<char>> {
    seq![flush_command()] + Seq::new(actions.len(), |i: int| command_spec(actions[i], applied))
}

fn command_text(a: &RuleAction, applied: bool) -> (s: String)
    ensures
        s@ == command_spec(a@, applied),
{
    let mut s = String::from_str("nft add rule inet hearth forward ether saddr ");
    match &a.action {
        ActionKind::BlockOutbound { destination: None } => {
            s.append(a.mac.as_str());
            s.append(" drop");
        },
        ActionKind::BlockOutbound { destination: Some(ip) } => {
            s.append(a.mac.as_str());
            s.append(" ip daddr ");
            let t = ip_to_string(ip);
            s.append(t.as_str());
            s.append(" drop");
        },
        ActionKind::RateLimit { max_bytes_per_second } => {
            let kbps = *max_bytes_per_second / 1024;
            let shown = if applied && kbps < 1 {
                1
            } else {
                kbps
            };
            s.append(a.mac.as_str());
            s.append(" limit rate ");
            let t = decimal_string(shown);
            s.append(t.as_str());
            s.append(" kbytes/second accept");
        },
        ActionKind::AllowOnly { .. } => {
            if applied {
                s = String::from_str("# Allow-only rule for ");
                s.append(a.mac.as_str());
                s.append(" — requires DNS resolution");
            } else {
                s = String::from_str("# allow-only for ");
                s.append(a.mac.as_str());
            }
        },
    }
    s
}

fn commands_for(actions: &[RuleAction], applied: bool) -> (r: Vec<String>)
    ensures
        texts(r@) == commands_spec(actions_view(actions@), applied),
{
    let ghost want = commands_spec(actions_view(actions@), applied);
    let mut r: Vec<String> = Vec::new();
    r.push(String::from_str("nft flush chain inet hearth forward"));
    let mut i: usize = 0;
    while i < actions.len()
        invariant
            i <= actions.len(),
            want == commands_spec(actions_view(actions@), applied),
            texts(r@) == want.take(i + 1),
        decreases actions.len() - i,
    {
        let c = command_text(&actions[i], applied);
        let ghost before = r@;
        r.push(c);
        assert(texts(r@) =~= texts(before).push(c@));
        assert(want.take(i + 2) =~= want.take(i + 1).push(want[i + 1]));
        i = i + 1;
    }
    assert(want.take(actions.len() + 1) =~= want);
    r
}

/// A command line is a note, not a command to run, when it starts with
/// '#'.
pub open spec fn is_note_text(cmd: Seq<char>) -> bool {
    cmd.len() > 0 && cmd[0] == '#'
}

/// Whether a command line is a note, not a command to run: it starts with
/// '#'.
pub fn is_note(cmd: &str) -> (r: bool)
    ensures
        r == is_note_text(cmd@),
{
    cmd.unicode_len() > 0 && cmd.get_char(0) == '#'
}

/// Keeps the command lines that are not notes.
pub open spec fn not_note() -> spec_fn(Seq<char>) -> bool {
    |c: Seq<char>| !is_note_text(c)
}

/// The commands that applying the actions runs: the applied commands
/// without the notes.
pub open spec fn run_commands(actions: Seq<RuleActionView>) -> Seq<Seq<char>> {
    commands_spec(actions, true).filter(not_note())
}

/// The command lines of `cmds` that are not notes, in order.
fn without_notes(cmds: &Vec<String>) -> (r: Vec<String>)
    ensures
        texts(r@) == texts(cmds@).filter(not_note()),
{
    let ghost all = texts(cmds@);
    let mut r: Vec<String> = Vec::new();
    let mut i: usize = 0;
    while i < cmds.len()
        invariant
            i <= cmds.len(),
            all == texts(cmds@),
            texts(r@) == all.take(i as int).filter(not_note()),
        decreases cmds.len() - i,
    {
        let ghost before = r@;
        proof {
            assert(all.take(i + 1) =~= all.take(i as int).push(all[i as int]));
            all.take(i as int).lemma_filter_push(all[i as int], not_note());
        }
        if !is_note(cmds[i].as_str()) {
            r.push(cmds[i].clone());
            assert(texts(r@) =~= texts(before).push(all[i as int]));
        }
        i = i + 1;
    }
    assert(all.take(cmds.len() as int) =~= all);
    r
}

// ---------------------------------------------------------------------------
// Block hours
// ---------------------------------------------------------------------------

/// What chrono's `NaiveTime::parse_from_str(s, "%H:%M")` gives for a text:
/// the hour and minute of the time, or `None` when it refuses the text.
pub uninterp spec fn parsed_hour_minute(s: Seq<char>) -> Option<(u32, u32)>;

/// Parses a time of day with chrono's `NaiveTime::parse_from_str(s, "%H:%M")`.
///
/// The contract claims that the result is a function of the text alone and,
/// as `NaiveTime` documents, that an hour is below 24 and a minute below 60.
/// Which texts chrono accepts (it skips leading whitespace before a number,
/// and takes one or two digits) is left unsaid.
#[verifier::external_body]
fn parse_hour_minute(s: &str) -> (r: Option<(u32, u32)>)
    ensures
        r == parsed_hour_minute(s@),
        r matches Some((h, m)) ==> h < 24 && m < 60,
{
    match chrono::NaiveTime::parse_from_str(s, "%H:%M") {
        Ok(t) => Some((chrono::Timelike::hour(&t), chrono::Timelike::minute(&t))),
        Err(_) => None,
    }
}

/// Whether the time of day of `now` (Unix seconds, UTC) lies in the range
/// from `start` up to, not including, `end`; a range whose start is after
/// its end runs overnight. A missing bound makes the range empty.
pub open spec fn in_window(start: Option<(u32, u32)>, end: Option<(u32, u32)>, now: int) -> bool {
    match (start, end) {
        (Some((sh, sm)), Some((eh, em))) => {
            let a = sh * 3600 + sm * 60;
            let b = eh * 3600 + em * 60;
            let c = now % 86400;
            if a <= b {
                a <= c && c < b
            } else {
                a <= c || c < b
            }
        },
        _ => false,
    }
}

/// Whether the time of day of `now` lies in the range between two parsed
/// times of day (hour, minute).
pub fn within_window(start: Option<(u32, u32)>, end: Option<(u32, u32)>, now: i64) -> (r: bool)
    ensures
        r == in_window(start, end, now as int),
{
    match (start, end) {
        (Some((sh, sm)), Some((eh, em))) => {
            let a: u64 = (sh as u64) * 3600 + (sm as u64) * 60;
            let b: u64 = (eh as u64) * 3600 + (em as u64) * 60;
            let c: i64 = now % 86400;
            let c: i64 = if c < 0 {
                c + 86400
            } else {
                c
            };
            assert(c == now as int % 86400);
            let c: u64 = c as u64;
            if a <= b {
                a <= c && c < b
            } else {
                a <= c || c < b
            }
        },
        _ => false,
    }
}

/// Whether `now` (Unix seconds, UTC) falls within the block hours from
/// `start` to `end`, both "HH:MM"; a range whose start is after its end runs
/// overnight. A bound that does not parse blocks nothing.
pub fn is_within_block_hours(start: &str, end: &str, now: i64) -> (r: bool)
    ensures
        r == in_window(parsed_hour_minute(start@), parsed_hour_minute(end@), now as int),
{
    let s = parse_hour_minute(start);
    if s.is_none() {
        return false;
    }
    let e = parse_hour_minute(end);
    within_window(s, e, now)
}

// ---------------------------------------------------------------------------
// Evaluation
// ---------------------------------------------------------------------------

/// The decision, made from a device's floating-point upload limit and the
/// bytes it sent in the last hour, that it went over the limit: the rate to
/// hold it to and why.
pub struct UploadVerdict {
    pub max_bytes_per_second: u64,
    pub reason: String,
}

/// Whether the block hours of a device cover `now`.
pub open spec fn blocked_at(cfg: DeviceConfig, now: int) -> bool {
    match cfg.block_hours {
        Some(h) => in_window(parsed_hour_minute(h@[0]@), parsed_hour_minute(h@[1]@), now),
        None => false,
    }
}

/// The texts joined with `sep` between each two.
pub open spec fn join_spec(ds: Seq<Seq<char>>, sep: Seq<char>) -> Seq<char>
    decreases ds.len(),
{
    if ds.len() == 0 {
        seq![]
    } else if ds.len() == 1 {
        ds[0]
    } else {
        join_spec(ds.drop_last(), sep) + sep + ds.last()
    }
}

/// The reason given for blocking a device during its block hours.
pub open spec fn block_reason(start: Seq<char>, end: Seq<char>) -> Seq<char> {
    "Blocked during hours "@ + start + " — "@ + end
}

/// The actions for one device at `now`: a block during its block hours and
/// nothing else; otherwise a rate limit where it has an upload limit and
/// went over it, then an allow-only rule where it has a non-empty list of
/// allowed domains.
pub open spec fn device_actions(cfg: DeviceConfig, now: int, up: Option<UploadVerdict>) -> Seq<
    RuleActionView,
> {
    if blocked_at(cfg, now) {
        let h = cfg.block_hours->0;
        seq![
            RuleActionView {
                mac: cfg.mac@,
                action: ActionView::BlockOutbound(None),
                reason: block_reason(h@[0]@, h@[1]@),
                expires_at: None,
            },
        ]
    } else {
        let limit = match up {
            Some(v) => if cfg.max_upload_per_hour_mb_bits is Some {
                seq![
                    RuleActionView {
                        mac: cfg.mac@,
                        action: ActionView::RateLimit(v.max_bytes_per_second),
                        reason: v.reason@,
                        expires_at: None,
                    },
                ]
            } else {
                seq![]
            },
            None => seq![],
        };
        let allow = match cfg.allow_domains {
            Some(d) => if d@.len() > 0 {
                seq![
                    RuleActionView {
                        mac: cfg.mac@,
                        action: ActionView::AllowOnly(texts(d@)),
                        reason: "Only allowed: "@ + join_spec(texts(d@), ", "@),
                        expires_at: None,
                    },
                ]
            } else {
                seq![]
            },
            None => seq![],
        };
        limit + allow
    }
}

/// The upload verdict handed in for device `i`, if any.
pub open spec fn verdict_at(ups: Seq<Option<UploadVerdict>>, i: int) -> Option<UploadVerdict> {
    if 0 <= i < ups.len() {
        ups[i]
    } else {
        None
    }
}

/// The actions for the first `n` devices, device by device.
pub open spec fn actions_upto(
    cfgs: Seq<DeviceConfig>,
    ups: Seq<Option<UploadVerdict>>,
    now: int,
    n: int,
) -> Seq<RuleActionView>
    decreases n,
{
    if n <= 0 {
        seq![]
    } else {
        actions_upto(cfgs, ups, now, n - 1) + device_actions(cfgs[n - 1], now, verdict_at(ups, n - 1))
    }
}

fn join_texts(ds: &Vec<String>, sep: &str) -> (s: String)
    ensures
        s@ == join_spec(texts(ds@), sep@),
{
    let ghost t = texts(ds@);
    let mut s = String::new();
    let mut i: usize = 0;
    while i < ds.len()
        invariant
            i <= ds.len(),
            t == texts(ds@),
            s@ == join_spec(t.take(i as int), sep@),
        decreases ds.len() - i,
    {
        proof {
            assert(t.take(i + 1).drop_last() =~= t.take(i as int));
            assert(t.take(i + 1).last() == ds@[i as int]@);
            if i == 0 {
                assert(t.take(0) =~= Seq::<Seq<char>>::empty());
                assert(t.take(1) =~= seq![ds@[0]@]);
            }
        }
        if i > 0 {
            s.append(sep);
        }
        s.append(ds[i].as_str());
        i = i + 1;
    }
    assert(t.take(ds.len() as int) =~= t);
    s
}

fn block_hours_reason(start: &String, end: &String) -> (s: String)
    ensures
        s@ == block_reason(start@, end@),
{
    let mut s = String::from_str("Blocked during hours ");
    s.append(start.as_str());
    s.append(" — ");
    s.append(end.as_str());
    s
}

/// Rule enforcement engine: evaluates the device rules of the configuration
/// and turns the resulting actions into nftables commands.
pub struct RulesEngine {
    config: Config,
}

impl RulesEngine {
    /// The configuration the engine evaluates.
    pub closed spec fn rules_config(&self) -> Config {
        self.config
    }

    /// A rules engine for the given configuration.
    pub fn new(config: Config) -> (r: Self)
        ensures
            r.rules_config() == config,
    {
        RulesEngine { config }
    }

    /// The configuration the engine evaluates.
    pub fn config(&self) -> (r: &Config)
        ensures
            *r == self.rules_config(),
    {
        &self.config
    }

    /// Whether the upload of device `i` must be checked at `now`: it has an
    /// upload limit and its block hours do not cover `now`. The caller then
    /// looks up what the device sent in the last hour and hands the verdict
    /// to `evaluate`.
    pub fn needs_upload_check(&self, i: usize, now: i64) -> (r: bool)
        ensures
            r == (i < self.rules_config().devices@.len() && !blocked_at(
                self.rules_config().devices@[i as int],
                now as int,
            ) && self.rules_config().devices@[i as int].max_upload_per_hour_mb_bits is Some),
    {
        if i >= self.config.devices.len() {
            return false;
        }
        let cfg = &self.config.devices[i];
        if cfg.max_upload_per_hour_mb_bits.is_none() {
            return false;
        }
        !device_blocked(cfg, now)
    }

    /// The actions to apply at `now` (Unix seconds, UTC), device by device
    /// in configuration order. `upload[i]` is the verdict on device `i`'s
    /// upload in the last hour, `None` when it stayed within its limit or
    /// was not checked.
    pub fn evaluate(&self, now: i64, upload: &[Option<UploadVerdict>]) -> (r: Vec<RuleAction>)
        ensures
            actions_view(r@) == actions_upto(
                self.rules_config().devices@,
                upload@,
                now as int,
                self.rules_config().devices@.len() as int,
            ),
    {
        let devs = &self.config.devices;
        let mut r: Vec<RuleAction> = Vec::new();
        let mut i: usize = 0;
        while i < devs.len()
            invariant
                i <= devs.len(),
                devs == self.config.devices,
                actions_view(r@) == actions_upto(devs@, upload@, now as int, i as int),
            decreases devs.len() - i,
        {
            let cfg = &devs[i];
            let ghost before = actions_view(r@);
            let up: Option<&UploadVerdict> = if i < upload.len() {
                match &upload[i] {
                    Some(v) => Some(v),
                    None => None,
                }
            } else {
                None
            };
            let ghost want = device_actions(devs@[i as int], now as int, verdict_at(upload@, i as int));
            if device_blocked(cfg, now) {
                let h = cfg.block_hours.as_ref().unwrap();
                r.push(
                    RuleAction {
                        mac: cfg.mac.clone(),
                        action: ActionKind::BlockOutbound { destination: None },
                        reason: block_hours_reason(&h[0], &h[1]),
                        expires_at: None,
                    },
                );
                assert(actions_view(r@) =~= before + want);
            } else {
                let ghost mid = actions_view(r@);
                match up {
                    Some(v) => {
                        if cfg.max_upload_per_hour_mb_bits.is_some() {
                            r.push(
                                RuleAction {
                                    mac: cfg.mac.clone(),
                                    action: ActionKind::RateLimit {
                                        max_bytes_per_second: v.max_bytes_per_second,
                                    },
                                    reason: v.reason.clone(),
                                    expires_at: None,
                                },
                            );
                            assert(actions_view(r@) =~= mid.push(actions_view(r@).last()));
                        }
                    },
                    None => {},
                }
                let ghost mid2 = actions_view(r@);
                match &cfg.allow_domains {
                    Some(d) => {
                        if d.len() > 0 {
                            let mut reason = String::from_str("Only allowed: ");
                            let joined = join_texts(d, ", ");
                            reason.append(joined.as_str());
                            r.push(
                                RuleAction {
                                    mac: cfg.mac.clone(),
                                    action: ActionKind::AllowOnly { domains: duplicate_strings(d) },
                                    reason,
                                    expires_at: None,
                                },
                            );
                            assert(actions_view(r@) =~= mid2.push(actions_view(r@).last()));
                        }
                    },
                    None => {},
                }
                assert(actions_view(r@) =~= before + want);
            }
            i = i + 1;
        }
        r
    }

    /// The nftables commands for the actions, as strings: the flush, then
    /// one command per action, as `apply_commands` gives them but for the
    /// text of the notes that stand for allow-only rules and for a rate
    /// below 1 kbyte/s, which shows as 0.
    pub fn generate_commands(&self, actions: &[RuleAction]) -> (r: Vec<String>)
        ensures
            texts(r@) == commands_spec(actions_view(actions@), false),
    {
        commands_for(actions, false)
    }

    /// The nftables commands that applying the actions runs: always the
    /// flush, so that the chain is rebuilt from scratch (with no actions,
    /// the rules of earlier rounds are cleared), then one command per
    /// action. Lines starting with '#' are notes, not commands.
    pub fn apply_commands(&self, actions: &[RuleAction]) -> (r: Vec<String>)
        ensures
            texts(r@) == commands_spec(actions_view(actions@), true),
    {
        commands_for(actions, true)
    }

    /// The commands that applying the actions runs, in order: the applied
    /// commands without their notes.
    pub fn commands_to_run(&self, actions: &[RuleAction]) -> (r: Vec<String>)
        ensures
            texts(r@) == run_commands(actions_view(actions@)),
    {
        let all = commands_for(actions, true);
        without_notes(&all)
    }
}

/// Whether the block hours of a device cover `now`.
pub fn device_blocked(cfg: &DeviceConfig, now: i64) -> (r: bool)
    ensures
        r == blocked_at(*cfg, now as int),
{
    match &cfg.block_hours {
        Some(h) => is_within_block_hours(h[0].as_str(), h[1].as_str(), now),
        None => false,
    }
}

// ---------------------------------------------------------------------------
// Laws
// ---------------------------------------------------------------------------

/// A device inside its block hours gets exactly one action, the block of
/// all its outbound traffic: no other rule applies to it then.
pub proof fn law_blocked_device_only_blocked(cfg: DeviceConfig, now: int, up: Option<UploadVerdict>)
    requires
        blocked_at(cfg, now),
    ensures
        device_actions(cfg, now, up).len() == 1,
        device_actions(cfg, now, up)[0].action == ActionView::BlockOutbound(None),
        device_actions(cfg, now, up)[0].mac == cfg.mac@,
{
}

/// The commands always start from scratch: the first empties the chain,
/// and each action adds exactly one command after it, in order.
pub proof fn law_commands_flush_first(actions: Seq<RuleActionView>, applied: bool)
    ensures
        commands_spec(actions, applied).len() == actions.len() + 1,
        commands_spec(actions, applied)[0] == flush_command(),
        forall|i: int|
            0 <= i < actions.len() ==> #[trigger] commands_spec(actions, applied)[i + 1]
                == command_spec(actions[i], applied),
{
}

/// Keeps the actions that a command enforces: all but the allow-only ones.
pub open spec fn enforced() -> spec_fn(RuleActionView) -> bool {
    |a: RuleActionView| !(a.action is AllowOnly)
}

/// The command that applying runs for an action.
pub open spec fn applied_command() -> spec_fn(RuleActionView) -> Seq<char> {
    |a: RuleActionView| command_spec(a, true)
}

/// Applying the actions runs the flush, then the command of every action
/// but the allow-only ones, in the order of the actions; with no actions,
/// only the flush.
pub proof fn law_run_flush_then_enforced(actions: Seq<RuleActionView>)
    ensures
        run_commands(actions) == seq![flush_command()] + actions.filter(enforced()).map_values(
            applied_command(),
        ),
    decreases actions.len(),
{
    let f = applied_command();
    if actions.len() == 0 {
        reveal_strlit("nft flush chain inet hearth forward");
        let e = Seq::<Seq<char>>::empty();
        assert(commands_spec(actions, true) =~= e.push(flush_command()));
        e.lemma_filter_push(flush_command(), not_note());
        assert(e.filter(not_note()) =~= e) by {
            reveal(Seq::filter);
        }
        assert(actions.filter(enforced()) =~= Seq::<RuleActionView>::empty()) by {
            reveal(Seq::filter);
        }
        assert(run_commands(actions) =~= seq![flush_command()]);
        assert(actions.filter(enforced()).map_values(f) =~= e);
        assert(seq![flush_command()] + e =~= seq![flush_command()]);
    } else {
        let t = actions.drop_last();
        let x = actions.last();
        assert(actions =~= t.push(x));
        law_run_flush_then_enforced(t);
        law_notes_are_allow_only(x, true);
        assert(commands_spec(actions, true) =~= commands_spec(t, true).push(command_spec(x, true)));
        commands_spec(t, true).lemma_filter_push(command_spec(x, true), not_note());
        t.lemma_filter_push(x, enforced());
        if enforced()(x) {
            assert(t.push(x).filter(enforced()).map_values(f) =~= t.filter(enforced()).map_values(
                f,
            ).push(command_spec(x, true)));
            assert(seq![flush_command()] + t.filter(enforced()).map_values(f).push(
                command_spec(x, true),
            ) =~= (seq![flush_command()] + t.filter(enforced()).map_values(f)).push(
                command_spec(x, true),
            ));
        }
    }
}

/// A device outside its block hours whose allow list holds one domain or
/// more gets an allow-only action for it, with exactly those domains, as
/// its last action; a device without a list, or with an empty one, gets no
/// allow-only action.
pub proof fn law_allow_list_gives_allow_only(cfg: DeviceConfig, now: int, up: Option<UploadVerdict>)
    requires
        !blocked_at(cfg, now),
    ensures
        cfg.allow_domains matches Some(d) && d@.len() >= 1 ==> ({
            let acts = device_actions(cfg, now, up);
            &&& acts.len() >= 1
            &&& acts.last().mac == cfg.mac@
            &&& acts.last().action == ActionView::AllowOnly(
                cfg.allow_domains->0@.map_values(|x: String| x@),
            )
        }),
        (exists|k: int|
            0 <= k < device_actions(cfg, now, up).len() && (#[trigger] device_actions(
                cfg,
                now,
                up,
            )[k]).action is AllowOnly) <==> (cfg.allow_domains matches Some(d) && d@.len() >= 1),
{
    let acts = device_actions(cfg, now, up);
    if cfg.allow_domains matches Some(d) && d@.len() >= 1 {
        assert(acts[acts.len() - 1].action is AllowOnly);
    } else {
        assert forall|k: int| 0 <= k < acts.len() implies !(#[trigger] acts[k].action is AllowOnly) by {}
    }
}

/// Swapping the bounds of block hours that differ gives the complementary
/// hours: a time is inside 23:00–06:00 exactly when it is outside
/// 06:00–23:00.
pub proof fn law_window_swap_complements(start: (u32, u32), end: (u32, u32), now: int)
    requires
        start.0 * 3600 + start.1 * 60 != end.0 * 3600 + end.1 * 60,
    ensures
        in_window(Some(start), Some(end), now) == !in_window(Some(end), Some(start), now),
{
}

/// The notes among the commands stand exactly for the allow-only rules:
/// every other action's command is run. Shown and run commands differ only
/// in the text of those notes and in a rate below 1 kbyte/s, shown as 0
/// and run as 1.
pub proof fn law_notes_are_allow_only(a: RuleActionView, applied: bool)
    ensures
        command_spec(a, applied).len() > 0,
        (command_spec(a, applied)[0] == '#') <==> a.action is AllowOnly,
        !(a.action is AllowOnly) && !(a.action matches ActionView::RateLimit(b) && b < 1024)
            ==> command_spec(a, false) == command_spec(a, true),
{
    reveal_strlit("nft add rule inet hearth forward ether saddr ");
    reveal_strlit("# Allow-only rule for ");
    reveal_strlit("# allow-only for ");
    let p = "nft add rule inet hearth forward ether saddr "@;
    let c = command_spec(a, applied);
    match a.action {
        ActionView::AllowOnly(_) => {
            if applied {
                assert(c[0] == "# Allow-only rule for "@[0]);
            } else {
                assert(c[0] == "# allow-only for "@[0]);
            }
        },
        _ => {
            assert(rule_prefix(a.mac)[0] == p[0]);
            assert(c.len() >= rule_prefix(a.mac).len());
            assert(c[0] == rule_prefix(a.mac)[0]);
        },
    }
}

} // verus!
