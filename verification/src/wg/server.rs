//! The life of a WireGuard server: provisioned, started, stopped.
//!
//! What touches the system is done elsewhere: the functions here say what to
//! do, and what to make of what came back.

use vstd::prelude::*;

use crate::fault::{IoFault, IoKind};
use crate::text;

use super::config;
use super::config::ServerConfig;
use super::error;
use super::error::WgError;
use super::keys;
use super::keys::KeyPair;

verus! {

/// The program that brings an interface up and down.
pub const WG_QUICK: &'static str = "wg-quick";

/// The program that tells of an interface.
pub const WG: &'static str = "wg";

/// The directory where `wg-quick` notes which device an interface is.
pub const RUN_DIR: &'static str = "/var/run/wireguard";

/// What a provisioning came to.
#[derive(Debug)]
pub struct Provisioning {
    /// The public key of the server, to be handed to the clients.
    pub public_key: String,
    /// The path of the configuration file.
    pub config_path: String,
    /// `false` if there was a configuration, which was used again.
    pub created: bool,
}

/// What a start came to.
#[derive(Debug, PartialEq, Eq)]
pub enum StartOutcome {
    /// The interface was brought up.
    Started {
        /// The device made (`wg0` on Linux, `utunN` on macOS).
        device: String,
    },
    /// The interface was up: nothing was done.
    AlreadyRunning {
        /// The device in place.
        device: String,
    },
}

/// What a stop came to.
#[derive(Debug, PartialEq, Eq)]
pub enum StopOutcome {
    /// The interface was brought down.
    Stopped,
    /// The interface was down: nothing was done.
    AlreadyStopped,
}

/// What an active interface is like.
#[derive(Debug)]
pub struct Status {
    /// The device asked about (`wg0` on Linux, `utunN` on macOS).
    pub device: String,
    /// What `wg show <device>` wrote.
    pub details: String,
}

// ---------------------------------------------------------------------------
// Programs
// ---------------------------------------------------------------------------

/// What a program did.
#[derive(Debug)]
pub struct CommandOutput {
    /// It ended well.
    pub success: bool,
    /// Its exit code, if it has one.
    pub code: Option<i32>,
    /// What it wrote.
    pub stdout: String,
    /// What it wrote on its error output.
    pub stderr: String,
}

/// The error for a program that cannot be started.
pub open spec fn is_binary_error(e: WgError, bin: Seq<char>, fault: IoFault) -> bool {
    if fault.kind == IoKind::NotFound {
        e matches WgError::MissingBinary(missing) && missing@ == bin
    } else {
        e matches WgError::Io { path, source } && path@ == bin && source == fault
    }
}

/// The error for a program that cannot be started.
pub fn binary_error(bin: &'static str, fault: IoFault) -> (r: WgError)
    ensures
        is_binary_error(r, bin@, fault),
{
    match fault.kind {
        IoKind::NotFound => WgError::MissingBinary(bin),
        _ => WgError::io(text::copy(bin), fault),
    }
}

/// Arguments with a space between each two.
pub open spec fn spaced(args: Seq<Seq<char>>) -> Seq<char>
    decreases args.len(),
{
    if args.len() == 0 {
        Seq::empty()
    } else if args.len() == 1 {
        args[0]
    } else {
        spaced(args.drop_last()).push(' ') + args.last()
    }
}

/// What the run of a program comes to: what it wrote, or the error.
pub open spec fn ran(
    r: Result<String, WgError>,
    bin: Seq<char>,
    args: Seq<Seq<char>>,
    output: Result<CommandOutput, IoFault>,
) -> bool {
    match output {
        Err(fault) => r matches Err(e) && is_binary_error(e, bin, fault),
        Ok(out) => if out.success {
            r matches Ok(written) && written@ == out.stdout@
        } else {
            &&& r matches Err(WgError::CommandFailed { cmd, code, stderr })
            &&& cmd@ == bin.push(' ') + spaced(args)
            &&& code == (match out.code {
                Some(code) => code as int,
                None => -1,
            })
            &&& stderr@ == text::trimmed(out.stderr@)
        },
    }
}

/// What the run of a program comes to.
pub fn run(bin: &'static str, args: &Vec<String>, output: Result<CommandOutput, IoFault>) -> (r:
    Result<String, WgError>)
    ensures
        ran(r, bin@, text::string_views(args@), output),
{
    match output {
        Err(fault) => Err(binary_error(bin, fault)),
        Ok(out) => {
            if out.success {
                return Ok(out.stdout);
            }
            let mut cmd = text::copy(bin);
            cmd.push(' ');
            push_spaced(args, &mut cmd);
            let said = text::chars_of(out.stderr.as_str());
            Err(
                WgError::CommandFailed {
                    cmd,
                    code: match out.code {
                        Some(code) => code,
                        None => -1,
                    },
                    stderr: text::from_chars(text::trim(said.as_slice())),
                },
            )
        },
    }
}

/// Writes arguments with a space between each two.
fn push_spaced(args: &Vec<String>, out: &mut String)
    ensures
        final(out)@ == old(out)@ + spaced(text::string_views(args@)),
{
    let ghost all = text::string_views(args@);
    let mut i: usize = 0;
    assert(out@ =~= old(out)@ + spaced(all.take(0)));
    while i < args.len()
        invariant
            i <= args@.len(),
            all == text::string_views(args@),
            out@ == old(out)@ + spaced(all.take(i as int)),
        decreases args@.len() - i,
    {
        if i > 0 {
            out.push(' ');
        }
        out.append(args[i].as_str());
        assert(all.take(i + 1).drop_last() =~= all.take(i as int));
        assert(all.take(i + 1).last() == args@[i as int]@);
        assert(out@ =~= old(out)@ + spaced(all.take(i + 1)));
        i = i + 1;
    }
    assert(all.take(i as int) =~= all);
}

/// What a program says when it is the rights that are missing.
pub open spec fn says_denied(stderr: Seq<char>) -> bool {
    text::occurs("Operation not permitted"@, stderr) || text::occurs("Permission denied"@, stderr)
}

/// What `wg show <device>` tells of a device: that it is there, that it is not,
/// or that the rights to tell are missing.
pub open spec fn shows(
    r: Result<bool, WgError>,
    device: Seq<char>,
    output: Result<CommandOutput, IoFault>,
) -> bool {
    match output {
        Err(fault) => r matches Err(e) && is_binary_error(e, WG@, fault),
        Ok(out) => if out.success {
            r == Ok::<bool, WgError>(true)
        } else if says_denied(out.stderr@) {
            r matches Err(WgError::PermissionDenied(what)) && what@ == "wg show "@ + device
        } else {
            r == Ok::<bool, WgError>(false)
        },
    }
}

/// Tells from `wg show <device>` whether the device is there.
///
/// Without the rights of root it fails just as it does for a device that is
/// not there, which would let an active tunnel pass for a stopped one: the two
/// are told apart.
pub fn wg_show_succeeds(device: &str, output: Result<CommandOutput, IoFault>) -> (r: Result<
    bool,
    WgError,
>)
    ensures
        shows(r, device@, output),
{
    match output {
        Err(fault) => Err(binary_error(WG, fault)),
        Ok(out) => {
            if out.success {
                return Ok(true);
            }
            let said = text::chars_of(out.stderr.as_str());
            let forbidden = text::chars_of("Operation not permitted");
            let denied = text::chars_of("Permission denied");
            if text::contains(said.as_slice(), forbidden.as_slice()) || text::contains(
                said.as_slice(),
                denied.as_slice(),
            ) {
                let mut what = text::copy("wg show ");
                what.append(device);
                return Err(WgError::PermissionDenied(what));
            }
            Ok(false)
        },
    }
}

// ---------------------------------------------------------------------------
// Devices
// ---------------------------------------------------------------------------

/// The path of the file in which `wg-quick` notes the device of an interface.
pub fn device_name_path(dir: &str, interface: &str) -> (r: String)
    ensures
        r@ == config::joined_path(dir@, interface@ + ".name"@),
{
    let mut file = text::copy(interface);
    file.append(".name");
    config::join_path(dir, file.as_str())
}

/// What the file of an interface comes to: the device that it names, without
/// the white space around it, or what went wrong.
pub open spec fn notes(
    r: Result<Option<String>, WgError>,
    path: Seq<char>,
    read: Result<String, IoFault>,
) -> bool {
    match read {
        Ok(raw) => {
            &&& r matches Ok(name)
            &&& text::option_view(name) == (if text::trimmed(raw@).len() > 0 {
                Some(text::trimmed(raw@))
            } else {
                None
            })
        },
        Err(fault) => match fault.kind {
            IoKind::NotFound => r matches Ok(name) && name is None,
            IoKind::PermissionDenied => r matches Err(WgError::PermissionDenied(what)) && what@
                == "lecture de "@ + path,
            _ => r matches Err(WgError::Io { path: p, source }) && p@ == path && source == fault,
        },
    }
}

/// What the file of an interface comes to: the device that it names.
///
/// A file that is not there names none. Missing rights are an error, or an
/// active tunnel would pass for a stopped one.
pub fn device_name_file(path: &str, read: Result<String, IoFault>) -> (r: Result<
    Option<String>,
    WgError,
>)
    ensures
        notes(r, path@, read),
{
    match read {
        Ok(raw) => {
            let chars = text::chars_of(raw.as_str());
            let name = text::trim(chars.as_slice());
            if name.len() > 0 {
                Ok(Some(text::from_chars(name)))
            } else {
                Ok(None)
            }
        },
        Err(fault) => match fault.kind {
            IoKind::NotFound => Ok(None),
            IoKind::PermissionDenied => {
                let mut what = text::copy("lecture de ");
                what.append(path);
                Err(WgError::PermissionDenied(what))
            },
            _ => Err(WgError::io(text::copy(path), fault)),
        },
    }
}

/// A search under way for the device of an interface.
///
/// On Linux a device has the name of its interface. On macOS `wg-quick` makes
/// a `utunN` and notes it in a file.
#[derive(Debug)]
pub enum Search {
    /// Is there a device of the name of the interface?
    Direct(String),
    /// Which device does the file of the interface name?
    Named(String),
    /// Is there a device of the name in the file? That file outlives a hard
    /// stop, so that it is not believed unseen.
    Noted(String),
}

/// What the system answers to a search.
#[derive(Debug)]
pub enum Answer {
    /// Whether the device is there.
    Shown(bool),
    /// The device that the file names.
    Read(Option<String>),
}

/// What comes of a search.
#[derive(Debug)]
pub enum Found {
    /// It goes on.
    More(Search),
    /// The device, `None` where the interface is not up.
    Device(Option<String>),
}

/// An answer fits what was asked.
pub open spec fn fits(search: Search, answer: Answer) -> bool {
    search is Named <==> answer is Read
}

/// What follows from an answer to a search.
pub open spec fn steps(search: Search, answer: Answer, found: Found) -> bool {
    match (search, answer) {
        (Search::Direct(interface), Answer::Shown(there)) => if there {
            found matches Found::Device(Some(d)) && d@ == interface@
        } else {
            found matches Found::More(Search::Named(n)) && n@ == interface@
        },
        (Search::Named(_), Answer::Read(Some(name))) => found matches Found::More(Search::Noted(d))
            && d@ == name@,
        (Search::Named(_), Answer::Read(None)) => found matches Found::Device(None),
        (Search::Noted(device), Answer::Shown(there)) => if there {
            found matches Found::Device(Some(d)) && d@ == device@
        } else {
            found matches Found::Device(None)
        },
        _ => true,
    }
}

/// Starts the search for the device of an interface.
pub fn resolve_device(interface: &str) -> (r: Search)
    ensures
        r matches Search::Direct(name) && name@ == interface@,
{
    Search::Direct(text::copy(interface))
}

/// Goes on with the search for a device.
pub fn resolve_step(search: Search, answer: Answer) -> (r: Found)
    requires
        fits(search, answer),
    ensures
        steps(search, answer, r),
{
    match (search, answer) {
        (Search::Direct(interface), Answer::Shown(there)) => if there {
            Found::Device(Some(interface))
        } else {
            Found::More(Search::Named(interface))
        },
        (Search::Named(_), Answer::Read(Some(name))) => Found::More(Search::Noted(name)),
        (Search::Noted(device), Answer::Shown(true)) => Found::Device(Some(device)),
        _ => Found::Device(None),
    }
}

/// Tells whether an interface is up, from its device.
pub fn is_running(device: &Option<String>) -> (r: bool)
    ensures
        r == (*device is Some),
{
    device.is_some()
}

// ---------------------------------------------------------------------------
// Provisioning
// ---------------------------------------------------------------------------

/// A file to write.
#[derive(Debug)]
pub struct FilePlan {
    /// Its path.
    pub path: String,
    /// What it holds.
    pub contents: String,
    /// Only its owner may read it.
    pub secret: bool,
}

/// What to write for a new server, in this order, and what that comes to.
#[derive(Debug)]
pub struct Plan {
    /// The directory of the files, open to its owner only.
    pub dir: String,
    /// The private key.
    pub private_key: FilePlan,
    /// The public key.
    pub public_key: FilePlan,
    /// The configuration.
    pub config: FilePlan,
    /// What the provisioning comes to once they are written.
    pub provisioning: Provisioning,
}

/// What a provisioning does.
#[derive(Debug)]
pub enum ColdStart {
    /// The configuration at this path is used again.
    Reuse(String),
    /// A new one is written.
    Create(Plan),
}

/// The path of the configuration.
pub open spec fn config_path_of(cfg: ServerConfig) -> Seq<char> {
    config::joined_path(cfg.config_dir@, cfg.interface@ + ".conf"@)
}

/// A plan writes a new server with these keys.
pub open spec fn plans(plan: Plan, cfg: ServerConfig, pair: KeyPair) -> bool {
    let private = keys::base64_encoded(pair.private());
    let public = keys::base64_encoded(pair.public());
    &&& plan.dir@ == cfg.config_dir@
    &&& plan.private_key.path@ == config::joined_path(cfg.config_dir@, cfg.interface@ + ".key"@)
    &&& plan.private_key.contents@ == private.push('\n')
    &&& plan.private_key.secret
    &&& plan.public_key.path@ == config::joined_path(cfg.config_dir@, cfg.interface@ + ".pub"@)
    &&& plan.public_key.contents@ == public.push('\n')
    &&& !plan.public_key.secret
    &&& plan.config.path@ == config_path_of(cfg)
    &&& plan.config.contents@ == config::config_text(cfg, private)
    &&& plan.config.secret
    &&& plan.provisioning.public_key@ == public
    &&& plan.provisioning.config_path@ == config_path_of(cfg)
    &&& plan.provisioning.created
    &&& keys::writes_key(private, pair.private())
}

/// A plan writes a new server with some pair of keys.
pub open spec fn plans_some(plan: Plan, cfg: ServerConfig) -> bool {
    exists|pair: KeyPair| #[trigger] plans(plan, cfg, pair) && pair.wf()
}

/// What to write for a new server with these keys.
pub fn provision(cfg: &ServerConfig, pair: &KeyPair) -> (r: Result<Plan, WgError>)
    ensures
        match config::config_fault(*cfg) {
            Some(fault) => r matches Err(e) && error::reports(e, fault),
            None => r matches Ok(plan) && plans(plan, *cfg, *pair),
        },
{
    let private = pair.private_b64();
    let public = pair.public_b64();
    let rendered = match cfg.render(private.as_str()) {
        Ok(rendered) => rendered,
        Err(e) => {
            return Err(e);
        },
    };
    let mut private_file = text::copy(private.as_str());
    private_file.push('\n');
    let mut public_file = text::copy(public.as_str());
    public_file.push('\n');
    Ok(
        Plan {
            dir: text::copy(cfg.config_dir.as_str()),
            private_key: FilePlan {
                path: cfg.private_key_path(),
                contents: private_file,
                secret: true,
            },
            public_key: FilePlan {
                path: cfg.public_key_path(),
                contents: public_file,
                secret: false,
            },
            config: FilePlan { path: cfg.config_path(), contents: rendered, secret: true },
            provisioning: Provisioning {
                public_key: public,
                config_path: cfg.config_path(),
                created: true,
            },
        },
    )
}

/// What a provisioning does: it uses the configuration again that is there, or
/// makes a new one.
pub open spec fn provisions(
    r: Result<ColdStart, WgError>,
    cfg: ServerConfig,
    force: bool,
    present: bool,
) -> bool {
    match config::config_fault(cfg) {
        Some(fault) => r matches Err(e) && error::reports(e, fault),
        None => if present && !force {
            r matches Ok(ColdStart::Reuse(path)) && path@ == config_path_of(cfg)
        } else {
            r matches Ok(ColdStart::Create(plan)) && plans_some(plan, cfg)
        },
    }
}

/// Provisions a server: a pair of keys and a `wg-quick` file.
///
/// A configuration that is there is used again. With `force`, the keys are
/// made anew, which cuts off every peer that has the old one. Nothing is to be
/// touched for a configuration that makes no sense.
pub fn cold_start(cfg: &ServerConfig, force: bool, present: bool) -> (r: Result<ColdStart, WgError>)
    ensures
        provisions(r, *cfg, force, present),
{
    if let Err(e) = cfg.validate() {
        return Err(e);
    }
    if present && !force {
        return Ok(ColdStart::Reuse(cfg.config_path()));
    }
    let pair = KeyPair::generate();
    match provision(cfg, &pair) {
        Ok(plan) => {
            assert(plans_some(plan, *cfg));
            Ok(ColdStart::Create(plan))
        },
        Err(e) => Err(e),
    }
}

/// What a configuration that is there comes to: its public key, or the error.
pub open spec fn reuses(
    r: Result<Provisioning, WgError>,
    config_path: Seq<char>,
    existing: Result<String, IoFault>,
) -> bool {
    match existing {
        Err(fault) => r matches Err(WgError::Io { path, source }) && path@ == config_path && source
            == fault,
        Ok(file) => match config::file_key(file@) {
            None => r matches Err(WgError::InvalidConfig(said)) && said@ == config_path
                + " ne contient pas de PrivateKey"@,
            Some(private) => match keys::key_of(private) {
                Err(fault) => r matches Err(e) && error::reports(e, fault),
                Ok(key) => {
                    &&& r matches Ok(found)
                    &&& found.public_key@ == keys::base64_encoded(keys::x25519_public(key))
                    &&& found.config_path@ == config_path
                    &&& !found.created
                },
            },
        },
    }
}

/// What a configuration that is there comes to: its public key.
pub fn reuse_existing(config_path: &str, existing: Result<String, IoFault>) -> (r: Result<
    Provisioning,
    WgError,
>)
    ensures
        reuses(r, config_path@, existing),
{
    let file = match existing {
        Ok(file) => file,
        Err(fault) => {
            return Err(WgError::io(text::copy(config_path), fault));
        },
    };
    let private = match config::extract_private_key(file.as_str()) {
        Some(private) => private,
        None => {
            let mut said = text::copy(config_path);
            said.append(" ne contient pas de PrivateKey");
            return Err(WgError::InvalidConfig(said));
        },
    };
    match KeyPair::from_private_b64(private.as_str()) {
        Ok(pair) => Ok(
            Provisioning {
                public_key: pair.public_b64(),
                config_path: text::copy(config_path),
                created: false,
            },
        ),
        Err(e) => Err(e),
    }
}

// ---------------------------------------------------------------------------
// Starting and stopping
// ---------------------------------------------------------------------------

/// Checks that an interface can be started: its configuration makes sense, and
/// is there.
pub fn start(cfg: &ServerConfig, present: bool) -> (r: Result<(), WgError>)
    ensures
        match config::config_fault(*cfg) {
            Some(fault) => r matches Err(e) && error::reports(e, fault),
            None => if present {
                r is Ok
            } else {
                r matches Err(WgError::NotProvisioned(path)) && path@ == config_path_of(*cfg)
            },
        },
{
    if let Err(e) = cfg.validate() {
        return Err(e);
    }
    if present {
        Ok(())
    } else {
        Err(WgError::NotProvisioned(cfg.config_path()))
    }
}

/// What to do to start an interface.
#[derive(Debug)]
pub enum StartStep {
    /// Nothing: it is up.
    Done(StartOutcome),
    /// Call `wg-quick` with these arguments.
    Up(Vec<String>),
}

/// Two arguments.
pub open spec fn are_args(args: Seq<String>, verb: Seq<char>, target: Seq<char>) -> bool {
    text::string_views(args) == seq![verb, target]
}

/// Makes a list of two arguments.
fn two_args(verb: &str, target: &str) -> (r: Vec<String>)
    ensures
        are_args(r@, verb@, target@),
{
    let mut args: Vec<String> = Vec::new();
    args.push(text::copy(verb));
    args.push(text::copy(target));
    assert(text::string_views(args@) =~= seq![verb@, target@]);
    args
}

/// What a start does: nothing where the interface is up, and otherwise what
/// its configuration says.
pub open spec fn starts(step: StartStep, cfg: ServerConfig, device: Option<String>) -> bool {
    match device {
        Some(d) => step == StartStep::Done(StartOutcome::AlreadyRunning { device: d }),
        None => step matches StartStep::Up(args) && are_args(args@, "up"@, config_path_of(cfg)),
    }
}

/// What to do to start an interface, given the device it is.
///
/// `wg-quick` takes a whole path, so that the configuration may stand anywhere.
pub fn start_step(cfg: &ServerConfig, device: Option<String>) -> (r: StartStep)
    ensures
        starts(r, *cfg, device),
{
    match device {
        Some(device) => StartStep::Done(StartOutcome::AlreadyRunning { device }),
        None => StartStep::Up(two_args("up", cfg.config_path().as_str())),
    }
}

/// What a start came to, given the device that the interface is now: where
/// none is found, the name of the interface stands for it.
pub fn started(cfg: &ServerConfig, device: Option<String>) -> (r: StartOutcome)
    ensures
        r matches StartOutcome::Started { device: d } && d@ == (match device {
            Some(found) => found@,
            None => cfg.interface@,
        }),
{
    match device {
        Some(device) => StartOutcome::Started { device },
        None => StartOutcome::Started { device: text::copy(cfg.interface.as_str()) },
    }
}

/// What to do to stop an interface.
#[derive(Debug)]
pub enum StopStep {
    /// Nothing: it is down.
    Done(StopOutcome),
    /// Call `wg-quick` with these arguments.
    Down(Vec<String>),
}

/// What a stop does: nothing where the interface is down, and otherwise what
/// its configuration says, or its name where that is gone.
pub open spec fn stops(
    r: Result<StopStep, WgError>,
    cfg: ServerConfig,
    device: Option<String>,
    present: bool,
) -> bool {
    match config::config_fault(cfg) {
        Some(fault) => r matches Err(e) && error::reports(e, fault),
        None => if device is None {
            r matches Ok(StopStep::Done(StopOutcome::AlreadyStopped))
        } else {
            r matches Ok(StopStep::Down(args)) && are_args(
                args@,
                "down"@,
                if present {
                    config_path_of(cfg)
                } else {
                    cfg.interface@
                },
            )
        },
    }
}

/// What to do to stop an interface, given the device it is and whether its
/// configuration is there.
///
/// `wg-quick` wants the path or the name of the interface, not the device.
pub fn stop(cfg: &ServerConfig, device: &Option<String>, present: bool) -> (r: Result<
    StopStep,
    WgError,
>)
    ensures
        stops(r, *cfg, *device, present),
{
    if let Err(e) = cfg.validate() {
        return Err(e);
    }
    if device.is_none() {
        return Ok(StopStep::Done(StopOutcome::AlreadyStopped));
    }
    let target = if present {
        cfg.config_path()
    } else {
        text::copy(cfg.interface.as_str())
    };
    Ok(StopStep::Down(two_args("down", target.as_str())))
}

/// The arguments by which `wg` tells of a device.
pub fn show_args(device: &str) -> (r: Vec<String>)
    ensures
        are_args(r@, "show"@, device@),
{
    two_args("show", device)
}

/// What an active interface is like, from what `wg show <device>` did.
pub fn status(device: String, output: Result<CommandOutput, IoFault>) -> (r: Result<
    Status,
    WgError,
>)
    ensures
        match r {
            Ok(s) => s.device@ == device@ && ran(
                Ok(s.details),
                WG@,
                seq!["show"@, device@],
                output,
            ),
            Err(e) => ran(Err(e), WG@, seq!["show"@, device@], output),
        },
{
    let args = show_args(device.as_str());
    match run(WG, &args, output) {
        Ok(details) => Ok(Status { device, details }),
        Err(e) => Err(e),
    }
}

// ---------------------------------------------------------------------------
// Laws
// ---------------------------------------------------------------------------

/// Provisioning twice is provisioning once: the configuration that was written
/// is used again, with the same public key. The address must not itself set a
/// private key.
pub proof fn law_cold_start_is_idempotent(
    cfg: ServerConfig,
    pair: KeyPair,
    plan: Plan,
    file: String,
    again: Result<Provisioning, WgError>,
)
    requires
        pair.wf(),
        plans(plan, cfg, pair),
        file@ == plan.config.contents@,
        reuses(again, config_path_of(cfg), Ok(file)),
        config::file_key(config::line("Address = "@, cfg.address@)) is None,
    ensures
        again matches Ok(found) && found.public_key@ == plan.provisioning.public_key@
            && found.config_path@ == plan.provisioning.config_path@ && !found.created,
{
    config::law_written_key_is_extracted(cfg, keys::base64_encoded(pair.private()));
}

/// What the system answers about devices.
pub struct Devices {
    /// Is there a device of this name?
    pub there: spec_fn(Seq<char>) -> bool,
    /// The device that the file of an interface names.
    pub noted: spec_fn(Seq<char>) -> Option<Seq<char>>,
}

/// The device of an interface: that of its name, or the one noted, each only
/// where it is there.
pub open spec fn device_of(interface: Seq<char>, devices: Devices) -> Option<Seq<char>> {
    if (devices.there)(interface) {
        Some(interface)
    } else {
        match (devices.noted)(interface) {
            Some(device) => if (devices.there)(device) {
                Some(device)
            } else {
                None
            },
            None => None,
        }
    }
}

/// The steps of a search come one after the other, answered by the system.
pub open spec fn answers(search: Search, answer: Answer, devices: Devices) -> bool {
    match search {
        Search::Direct(name) => answer matches Answer::Shown(b) && b == (devices.there)(name@),
        Search::Noted(name) => answer matches Answer::Shown(b) && b == (devices.there)(name@),
        Search::Named(name) => answer matches Answer::Read(n) && text::option_view(n) == (
        devices.noted)(name@),
    }
}

/// What is left to find of a search.
pub open spec fn search_device(search: Search, devices: Devices) -> Option<Seq<char>> {
    match search {
        Search::Direct(interface) => device_of(interface@, devices),
        Search::Named(interface) => match (devices.noted)(interface@) {
            Some(device) => if (devices.there)(device) {
                Some(device)
            } else {
                None
            },
            None => None,
        },
        Search::Noted(device) => if (devices.there)(device@) {
            Some(device@)
        } else {
            None
        },
    }
}

/// A search always comes to the device of the interface: each step either
/// gives it or leaves as much to be found.
pub proof fn law_search_finds_the_device(
    search: Search,
    answer: Answer,
    found: Found,
    devices: Devices,
)
    requires
        answers(search, answer, devices),
        steps(search, answer, found),
    ensures
        match found {
            Found::Device(device) => text::option_view(device) == search_device(search, devices),
            Found::More(more) => search_device(more, devices) == search_device(search, devices),
        },
{
}

/// The arguments in an error are those of the command: each is read back.
pub proof fn law_arguments_are_told(args: Seq<Seq<char>>)
    requires
        args.len() > 0,
        forall|i: int| 0 <= i < args.len() ==> !(#[trigger] args[i]).contains(' '),
    ensures
        text::pieces(spaced(args), ' ') == args,
{
    lemma_spaced(args);
    text::law_pieces_read_back(args, ' ');
}

/// Arguments are joined by spaces.
proof fn lemma_spaced(args: Seq<Seq<char>>)
    ensures
        spaced(args) == text::joined(args, ' '),
    decreases args.len(),
{
    if args.len() > 1 {
        lemma_spaced(args.drop_last());
    }
}

/// Missing rights are recognised wherever a program tells of them, in either
/// wording, and in no other.
pub proof fn law_missing_rights_are_recognised(before: Seq<char>, after: Seq<char>, said: Seq<char>)
    ensures
        says_denied(before + "Operation not permitted"@ + after),
        says_denied(before + "Permission denied"@ + after),
        says_denied(said) ==> exists|a: Seq<char>, b: Seq<char>|
            said == #[trigger] (a + "Operation not permitted"@ + b) || said == a
                + "Permission denied"@ + b,
{
    text::lemma_occurs(before, "Operation not permitted"@, after);
    text::lemma_occurs(before, "Permission denied"@, after);
    if text::occurs("Operation not permitted"@, said) {
        let (a, b) = text::lemma_occurrence(said, "Operation not permitted"@);
        assert(said == a + "Operation not permitted"@ + b);
    } else if text::occurs("Permission denied"@, said) {
        let (a, b) = text::lemma_occurrence(said, "Permission denied"@);
        assert(said == a + "Permission denied"@ + b);
        assert((a + "Operation not permitted"@ + b).len() >= 0);
    }
}

/// A program that ended well gives what it wrote; one that failed is told with
/// its command, its exit code and what it wrote on its error output, without
/// the white space around that; one that is not there is told as missing.
pub proof fn law_failed_program_is_told(
    r: Result<String, WgError>,
    bin: Seq<char>,
    args: Seq<Seq<char>>,
    output: Result<CommandOutput, IoFault>,
)
    requires
        ran(r, bin, args, output),
    ensures
        match output {
            Ok(out) => if out.success {
                r matches Ok(written) && written@ == out.stdout@
            } else {
                &&& r matches Err(WgError::CommandFailed { cmd, code, stderr })
                &&& cmd@ == text::joined(seq![bin, text::joined(args, ' ')], ' ')
                &&& out.code is None ==> code == -1
                &&& out.code is Some ==> out.code == Some(code)
                &&& forall|a: Seq<char>, said: Seq<char>, b: Seq<char>|
                    #![trigger a + said + b]
                    text::all_spaces(a) && text::is_tight(said) && text::all_spaces(b)
                        && out.stderr@ == a + said + b ==> stderr@ == said
            },
            Err(fault) => if fault.kind == IoKind::NotFound {
                r matches Err(WgError::MissingBinary(missing)) && missing@ == bin
            } else {
                r matches Err(WgError::Io { path, source }) && path@ == bin && source == fault
            },
        },
{
    lemma_spaced(args);
    let two = seq![bin, text::joined(args, ' ')];
    assert(two.drop_last() =~= seq![bin]);
    assert(text::joined(seq![bin], ' ') == bin);
    assert(text::joined(two, ' ') == bin.push(' ') + text::joined(args, ' '));
    assert forall|a: Seq<char>, said: Seq<char>, b: Seq<char>|
        #![trigger a + said + b]
        text::all_spaces(a) && text::is_tight(said) && text::all_spaces(b) implies text::trimmed(
        a + said + b,
    ) == said by {
        text::law_only_space_is_trimmed(a, said, b);
    }
}

/// A new server is three files in one directory, each at a path of its own: the
/// private key and the configuration, which only their owner may read, and the
/// public key. The keys stand alone on their line.
pub proof fn law_plan_keeps_the_secrets(plan: Plan, cfg: ServerConfig, pair: KeyPair)
    requires
        plans(plan, cfg, pair),
        config::is_interface(cfg.interface@),
    ensures
        plan.private_key.secret && plan.config.secret && !plan.public_key.secret,
        plan.private_key.contents@ == keys::base64_encoded(pair.private()) + seq!['\n'],
        plan.public_key.contents@ == keys::base64_encoded(pair.public()) + seq!['\n'],
        plan.provisioning.public_key@ == keys::base64_encoded(pair.public()),
        plan.provisioning.created,
        text::pieces(plan.private_key.path@, '/').last() == cfg.interface@ + ".key"@,
        text::pieces(plan.public_key.path@, '/').last() == cfg.interface@ + ".pub"@,
        text::pieces(plan.config.path@, '/').last() == cfg.interface@ + ".conf"@,
        config::path_interface(plan.config.path@) == Some(cfg.interface@),
        plan.provisioning.config_path@ == plan.config.path@,
        plan.private_key.path@ != plan.public_key.path@,
        plan.private_key.path@ != plan.config.path@,
        plan.public_key.path@ != plan.config.path@,
{
    reveal_strlit(".key");
    reveal_strlit(".pub");
    reveal_strlit(".conf");
    let dir = cfg.config_dir@;
    let name = cfg.interface@;
    config::law_config_path_names_the_interface(dir, name);
    config::lemma_interface_file(dir, name, ".key"@);
    config::lemma_interface_file(dir, name, ".pub"@);
    config::lemma_interface_file(dir, name, ".conf"@);
    let n = name.len() as int;
    assert((name + ".key"@)[n + 1] == 'k');
    assert((name + ".pub"@)[n + 1] == 'p');
    assert((name + ".conf"@)[n + 1] == 'c');
    assert(keys::base64_encoded(pair.private()).push('\n') =~= keys::base64_encoded(
        pair.private(),
    ) + seq!['\n']);
    assert(keys::base64_encoded(pair.public()).push('\n') =~= keys::base64_encoded(pair.public())
        + seq!['\n']);
}

/// Missing rights are never taken for a device that is not there, in whichever
/// wording and among whatever else they are told; any other failure is.
pub proof fn law_missing_rights_are_no_absence(
    r: Result<bool, WgError>,
    device: Seq<char>,
    output: Result<CommandOutput, IoFault>,
    before: Seq<char>,
    after: Seq<char>,
)
    requires
        shows(r, device, output),
    ensures
        match output {
            Ok(out) => {
                &&& out.success ==> r == Ok::<bool, WgError>(true)
                &&& !out.success && (out.stderr@ == before + "Permission denied"@ + after
                    || out.stderr@ == before + "Operation not permitted"@ + after) ==> r is Err
                &&& r == Ok::<bool, WgError>(false) ==> !out.success
                &&& !out.success && !text::occurs("Permission denied"@, out.stderr@)
                    && !text::occurs("Operation not permitted"@, out.stderr@) ==> r == Ok::<
                    bool,
                    WgError,
                >(false)
            },
            Err(_) => r is Err,
        },
{
    law_missing_rights_are_recognised(before, after, before);
}

/// The device that a file names is read without the white space around it; a
/// blank file and a missing one name none, and one that may not be read is an
/// error.
pub proof fn law_noted_device_is_read(
    r: Result<Option<String>, WgError>,
    path: Seq<char>,
    read: Result<String, IoFault>,
    before: Seq<char>,
    name: Seq<char>,
    after: Seq<char>,
)
    requires
        notes(r, path, read),
        text::all_spaces(before),
        text::is_tight(name),
        text::all_spaces(after),
    ensures
        match read {
            Ok(raw) => raw@ == before + name + after ==> (r matches Ok(found) && text::option_view(
                found,
            ) == (if name.len() > 0 {
                Some(name)
            } else {
                None
            })),
            Err(fault) => if fault.kind == IoKind::NotFound {
                r matches Ok(found) && found is None
            } else {
                r is Err
            },
        },
{
    text::law_only_space_is_trimmed(before, name, after);
}

/// Starting an interface that is up and stopping one that is down do nothing.
/// Otherwise `wg-quick` is called, and the stop undoes the start: it names the
/// very configuration that was started, as long as that is there, and the
/// interface where it is not.
pub proof fn law_stop_undoes_start(
    cfg: ServerConfig,
    started: StartStep,
    stopped: Result<StopStep, WgError>,
    before: Option<String>,
    after: Option<String>,
    present: bool,
)
    requires
        config::config_fault(cfg) is None,
        starts(started, cfg, before),
        stops(stopped, cfg, after, present),
    ensures
        before matches Some(device) ==> started == StartStep::Done(
            StartOutcome::AlreadyRunning { device },
        ),
        before is None ==> (started matches StartStep::Up(args) && text::string_views(args@)
            == seq!["up"@, config::joined_path(cfg.config_dir@, cfg.interface@ + ".conf"@)]),
        after is None ==> (stopped matches Ok(step) && step == StopStep::Done(
            StopOutcome::AlreadyStopped,
        )),
        after is Some ==> (stopped matches Ok(StopStep::Down(args)) && text::string_views(args@)[0]
            == "down"@ && args@.len() == 2),
        before is None && after is Some && present ==> text::string_views(
            stopped->Ok_0->Down_0@,
        )[1] == text::string_views(started->Up_0@)[1],
        after is Some && !present ==> text::string_views(stopped->Ok_0->Down_0@)[1]
            == cfg.interface@,
{
    if after is Some {
        let args = stopped->Ok_0->Down_0@;
        assert(text::string_views(args).len() == 2);
    }
}

/// A configuration that makes no sense is neither provisioned, nor started, nor
/// stopped: each tells the same fault. One that is there is used again unless
/// it is to be made anew, and one that is not is made.
pub proof fn law_wrong_config_is_never_used(
    cfg: ServerConfig,
    force: bool,
    present: bool,
    device: Option<String>,
    provisioned: Result<ColdStart, WgError>,
    stopped: Result<StopStep, WgError>,
)
    requires
        provisions(provisioned, cfg, force, present),
        stops(stopped, cfg, device, present),
    ensures
        config::config_fault(cfg) is Some <==> provisioned is Err,
        config::config_fault(cfg) is Some <==> stopped is Err,
        config::config_fault(cfg) matches Some(fault) ==> error::reports(
            provisioned->Err_0,
            fault,
        ) && error::reports(stopped->Err_0, fault),
        provisioned matches Ok(ColdStart::Reuse(path)) ==> present && !force
            && config::path_interface(path@) == Some(cfg.interface@),
        provisioned matches Ok(ColdStart::Create(plan)) ==> (!present || force) && plans_some(
            plan,
            cfg,
        ),
{
    if config::config_fault(cfg) is None {
        config::law_config_path_names_the_interface(cfg.config_dir@, cfg.interface@);
    }
}

} // verus!
