//! The settings the API reads and changes, what of them it shows, and what a save may set.

use vstd::prelude::*;
use vstd::string::*;

use crate::api::json::{
    array_member, array_of, chars_opt, json_all, json_get, json_of, json_opt, member, text_member,
    text_of, Json,
};
use crate::names::name_same;

verus! {

/// The pattern of 20 ms, the only frame voice has.
pub const VOICE_FRAME_MS: u32 = 0x41a0_0000;

/// This instance on the network.
pub struct GeneralConfig {
    pub name: String,
    pub port: u16,
    pub network_interface: String,
}

/// The audio devices, by name. An empty name is no device.
pub struct AudioConfig {
    pub input_device: String,
    pub output_device: String,
}

/// Where the web UI listens.
pub struct ApiConfig {
    pub bind: String,
    pub port: u16,
}

/// One remote.
pub struct RemoteConfig {
    pub name: String,
    pub host: String,
    pub port: u16,
    pub password: String,
    pub enabled: bool,
    pub phase_lock: bool,
    /// Voice rather than audio.
    pub voice: bool,
    /// Outgoing frame size in milliseconds, as a single-precision pattern.
    pub frame_ms: u32,
    pub send_matrix: Option<String>,
    pub receive_matrix: Option<String>,
}

/// The settings.
pub struct Config {
    pub general: GeneralConfig,
    pub audio: AudioConfig,
    pub api: ApiConfig,
    pub remotes: Vec<RemoteConfig>,
}

/// A remote, texts by their characters.
#[verifier::ext_equal]
pub struct Remote {
    pub name: Seq<char>,
    pub host: Seq<char>,
    pub port: u16,
    pub password: Seq<char>,
    pub enabled: bool,
    pub phase_lock: bool,
    pub voice: bool,
    pub frame_ms: u32,
    pub send_matrix: Option<Seq<char>>,
    pub receive_matrix: Option<Seq<char>>,
}

/// The settings, texts by their characters.
#[verifier::ext_equal]
pub struct Settings {
    pub name: Seq<char>,
    pub port: u16,
    pub network_interface: Seq<char>,
    pub input_device: Seq<char>,
    pub output_device: Seq<char>,
    pub api_bind: Seq<char>,
    pub api_port: u16,
    pub remotes: Seq<Remote>,
}

pub open spec fn remotes_of(rs: Seq<RemoteConfig>) -> Seq<Remote> {
    Seq::new(rs.len(), |i: int| rs[i]@)
}

impl View for RemoteConfig {
    type V = Remote;

    open spec fn view(&self) -> Remote {
        Remote {
            name: self.name@,
            host: self.host@,
            port: self.port,
            password: self.password@,
            enabled: self.enabled,
            phase_lock: self.phase_lock,
            voice: self.voice,
            frame_ms: self.frame_ms,
            send_matrix: chars_opt(self.send_matrix),
            receive_matrix: chars_opt(self.receive_matrix),
        }
    }
}

impl View for Config {
    type V = Settings;

    open spec fn view(&self) -> Settings {
        Settings {
            name: self.general.name@,
            port: self.general.port,
            network_interface: self.general.network_interface@,
            input_device: self.audio.input_device@,
            output_device: self.audio.output_device@,
            api_bind: self.api.bind@,
            api_port: self.api.port,
            remotes: remotes_of(self.remotes@),
        }
    }
}

/// A copy of an optional text.
pub fn copy_text(s: &Option<String>) -> (c: Option<String>)
    ensures
        chars_opt(c) == chars_opt(*s),
{
    match s {
        Some(x) => Some(x.as_str().to_owned()),
        None => None,
    }
}

/// Voice exists at 20 ms only.
pub open spec fn voice_normalised(r: Remote) -> Remote {
    if r.voice {
        Remote { frame_ms: VOICE_FRAME_MS, ..r }
    } else {
        r
    }
}

impl RemoteConfig {
    /// A copy of this remote.
    pub fn copy(&self) -> (c: Self)
        ensures
            c@ == self@,
    {
        RemoteConfig {
            name: self.name.as_str().to_owned(),
            host: self.host.as_str().to_owned(),
            port: self.port,
            password: self.password.as_str().to_owned(),
            enabled: self.enabled,
            phase_lock: self.phase_lock,
            voice: self.voice,
            frame_ms: self.frame_ms,
            send_matrix: copy_text(&self.send_matrix),
            receive_matrix: copy_text(&self.receive_matrix),
        }
    }

    /// Put voice on the one frame size it has.
    pub fn normalise_voice(&mut self)
        ensures
            final(self)@ == voice_normalised(old(self)@),
    {
        if self.voice {
            self.frame_ms = VOICE_FRAME_MS;
        }
    }
}

/// The first of the first `n` remotes with this name.
pub open spec fn remote_named(rs: Seq<Remote>, name: Seq<char>, n: int) -> Option<int>
    decreases n,
{
    if n <= 0 {
        None
    } else {
        match remote_named(rs, name, n - 1) {
            Some(i) => Some(i),
            None => if rs[n - 1].name == name {
                Some(n - 1)
            } else {
                None
            },
        }
    }
}

/// The first remote with this name.
pub open spec fn find(rs: Seq<Remote>, name: Seq<char>) -> Option<int> {
    remote_named(rs, name, rs.len() as int)
}

/// A found remote has the name, and none before it does; with none found no remote has it.
pub proof fn lemma_remote_named(rs: Seq<Remote>, name: Seq<char>, n: int)
    requires
        0 <= n <= rs.len(),
    ensures
        match remote_named(rs, name, n) {
            Some(i) => 0 <= i < n && rs[i].name == name && forall|j: int|
                0 <= j < i ==> (#[trigger] rs[j]).name != name,
            None => forall|j: int| 0 <= j < n ==> (#[trigger] rs[j]).name != name,
        },
    decreases n,
{
    if n > 0 {
        lemma_remote_named(rs, name, n - 1);
    }
}

/// Finding grows with the prefix: what is found early is found in the whole.
proof fn lemma_found_early(rs: Seq<Remote>, name: Seq<char>, n: int, m: int)
    requires
        0 <= n <= m <= rs.len(),
    ensures
        remote_named(rs, name, n) is Some ==> remote_named(rs, name, m) == remote_named(
            rs,
            name,
            n,
        ),
    decreases m,
{
    if n < m {
        lemma_found_early(rs, name, n, m - 1);
    }
}

/// Where the first remote of a name stands.
pub fn find_remote(remotes: &Vec<RemoteConfig>, name: &str) -> (at: Option<usize>)
    ensures
        find(remotes_of(remotes@), name@) == (match at {
            Some(i) => Some(i as int),
            None => None,
        }),
        at matches Some(i) ==> i < remotes@.len(),
{
    let ghost rs = remotes_of(remotes@);
    let mut i: usize = 0;
    while i < remotes.len()
        invariant
            i <= remotes@.len(),
            rs == remotes_of(remotes@),
            remote_named(rs, name@, i as int) is None,
        decreases remotes@.len() - i,
    {
        if name_same(remotes[i].name.as_str(), name) {
            proof {
                assert(rs[i as int].name == name@);
                lemma_found_early(rs, name@, i + 1, rs.len() as int);
            }
            return Some(i);
        }
        assert(rs[i as int].name != name@);
        i = i + 1;
    }
    None
}

/// What the API shows of a remote: everything but its password, of which only whether there
/// is one.
pub struct MaskedRemote {
    pub name: String,
    pub host: String,
    pub port: u16,
    pub enabled: bool,
    pub phase_lock: bool,
    pub voice: bool,
    pub frame_ms: u32,
    pub send_matrix: Option<String>,
    pub receive_matrix: Option<String>,
    pub password_set: bool,
}

#[verifier::ext_equal]
pub struct Masked {
    pub name: Seq<char>,
    pub host: Seq<char>,
    pub port: u16,
    pub enabled: bool,
    pub phase_lock: bool,
    pub voice: bool,
    pub frame_ms: u32,
    pub send_matrix: Option<Seq<char>>,
    pub receive_matrix: Option<Seq<char>>,
    pub password_set: bool,
}

impl View for MaskedRemote {
    type V = Masked;

    open spec fn view(&self) -> Masked {
        Masked {
            name: self.name@,
            host: self.host@,
            port: self.port,
            enabled: self.enabled,
            phase_lock: self.phase_lock,
            voice: self.voice,
            frame_ms: self.frame_ms,
            send_matrix: chars_opt(self.send_matrix),
            receive_matrix: chars_opt(self.receive_matrix),
            password_set: self.password_set,
        }
    }
}

pub open spec fn masked(r: Remote) -> Masked {
    Masked {
        name: r.name,
        host: r.host,
        port: r.port,
        enabled: r.enabled,
        phase_lock: r.phase_lock,
        voice: r.voice,
        frame_ms: r.frame_ms,
        send_matrix: r.send_matrix,
        receive_matrix: r.receive_matrix,
        password_set: r.password.len() != 0,
    }
}

/// The remotes as the API shows them.
pub fn masked_remotes(cfg: &Config) -> (shown: Vec<MaskedRemote>)
    ensures
        shown@.len() == cfg@.remotes.len(),
        forall|i: int| 0 <= i < shown@.len() ==> (#[trigger] shown@[i])@ == masked(cfg@.remotes[i]),
{
    let mut shown: Vec<MaskedRemote> = Vec::new();
    let mut i: usize = 0;
    while i < cfg.remotes.len()
        invariant
            i <= cfg.remotes@.len(),
            shown@.len() == i,
            forall|j: int|
                0 <= j < i ==> (#[trigger] shown@[j])@ == masked(cfg.remotes@[j]@),
        decreases cfg.remotes@.len() - i,
    {
        let r: &RemoteConfig = &cfg.remotes[i];
        shown.push(
            MaskedRemote {
                name: r.name.as_str().to_owned(),
                host: r.host.as_str().to_owned(),
                port: r.port,
                enabled: r.enabled,
                phase_lock: r.phase_lock,
                voice: r.voice,
                frame_ms: r.frame_ms,
                send_matrix: copy_text(&r.send_matrix),
                receive_matrix: copy_text(&r.receive_matrix),
                password_set: !r.password.as_str().is_empty(),
            },
        );
        i = i + 1;
    }
    shown
}

/// What a save payload says of one remote beyond its settings: the name it was loaded under,
/// and whether a password was typed.
pub struct SentRemote {
    pub orig_name: Option<String>,
    pub password_sent: bool,
}

#[verifier::ext_equal]
pub struct Sent {
    pub orig_name: Option<Seq<char>>,
    pub password_sent: bool,
}

impl View for SentRemote {
    type V = Sent;

    open spec fn view(&self) -> Sent {
        Sent { orig_name: chars_opt(self.orig_name), password_sent: self.password_sent }
    }
}

pub open spec fn sent_views(s: Seq<SentRemote>) -> Seq<Sent> {
    Seq::new(s.len(), |i: int| s[i]@)
}

/// What one entry of the payload's remotes says.
pub open spec fn sent_of(entry: Json) -> Sent {
    Sent {
        orig_name: text_of(member(entry, "orig_name"@)),
        password_sent: member(entry, "password"@) is Some,
    }
}

/// What a payload says of its remotes; nothing where it has no array of them.
pub open spec fn sent_in(payload: Json) -> Seq<Sent> {
    match array_of(member(payload, "remotes"@)) {
        Some(entries) => Seq::new(entries.len(), |i: int| sent_of(entries[i])),
        None => Seq::empty(),
    }
}

/// Read what a payload says of its remotes.
pub fn sent_remotes(payload: &serde_json::Value) -> (sent: Vec<SentRemote>)
    ensures
        sent_views(sent@) == sent_in(json_of(*payload)),
{
    let mut sent: Vec<SentRemote> = Vec::new();
    match array_member(payload, "remotes") {
        None => {
            assert(sent_views(sent@) =~= Seq::<Sent>::empty());
        },
        Some(entries) => {
            let mut i: usize = 0;
            while i < entries.len()
                invariant
                    i <= entries@.len(),
                    sent@.len() == i,
                    forall|j: int|
                        0 <= j < i ==> (#[trigger] sent@[j])@ == sent_of(json_of(entries@[j])),
                decreases entries@.len() - i,
            {
                let e: &serde_json::Value = &entries[i];
                let orig_name: Option<String> = text_member(e, "orig_name");
                let password: Option<&serde_json::Value> = json_get(e, "password");
                proof {
                    assert(json_opt(password) is Some <==> password is Some);
                }
                sent.push(SentRemote { orig_name, password_sent: password.is_some() });
                i = i + 1;
            }
            assert(sent_views(sent@) =~= Seq::new(
                json_all(entries@).len(),
                |j: int| sent_of(json_all(entries@)[j]),
            ));
        },
    }
    sent
}

/// The stored remote that a sent one stands for: named by the name it was loaded under, or by
/// its own where none was sent.
pub open spec fn stored_for(r: Remote, sent: Option<Sent>, old: Seq<Remote>) -> Option<int> {
    let key = match sent {
        Some(s) => match s.orig_name {
            Some(name) => name,
            None => r.name,
        },
        None => r.name,
    };
    find(old, key)
}

/// A sent remote with what a save does not get to set put back: the stored routing, and the
/// stored password unless one was typed. A remote with nothing stored is left alone.
pub open spec fn restored(r: Remote, sent: Option<Sent>, old: Seq<Remote>) -> Remote {
    match stored_for(r, sent, old) {
        None => r,
        Some(k) => Remote {
            send_matrix: old[k].send_matrix,
            receive_matrix: old[k].receive_matrix,
            password: if sent is Some && sent->Some_0.password_sent {
                r.password
            } else {
                old[k].password
            },
            ..r
        },
    }
}

pub open spec fn sent_at(sent: Seq<Sent>, i: int) -> Option<Sent> {
    if i < sent.len() {
        Some(sent[i])
    } else {
        None
    }
}

pub open spec fn restored_all(new: Seq<Remote>, sent: Seq<Sent>, old: Seq<Remote>) -> Seq<Remote> {
    Seq::new(new.len(), |i: int| restored(new[i], sent_at(sent, i), old))
}

fn restore_remote(r: RemoteConfig, sent: Option<&SentRemote>, old: &Vec<RemoteConfig>) -> (out:
    RemoteConfig)
    ensures
        out@ == restored(
            r@,
            match sent {
                Some(s) => Some(s@),
                None => None,
            },
            remotes_of(old@),
        ),
{
    let at: Option<usize> = match sent {
        Some(s) => {
            match &s.orig_name {
                Some(name) => find_remote(old, name.as_str()),
                None => find_remote(old, r.name.as_str()),
            }
        },
        None => find_remote(old, r.name.as_str()),
    };
    match at {
        None => r,
        Some(k) => {
            let typed: bool = match sent {
                Some(s) => s.password_sent,
                None => false,
            };
            let stored: &RemoteConfig = &old[k];
            let password: String = if typed {
                r.password
            } else {
                stored.password.as_str().to_owned()
            };
            RemoteConfig {
                name: r.name,
                host: r.host,
                port: r.port,
                password,
                enabled: r.enabled,
                phase_lock: r.phase_lock,
                voice: r.voice,
                frame_ms: r.frame_ms,
                send_matrix: copy_text(&stored.send_matrix),
                receive_matrix: copy_text(&stored.receive_matrix),
            }
        },
    }
}

/// Put back, in every remote of a save, what the save does not get to set.
pub fn restore_fields(new_cfg: &mut Config, sent: &Vec<SentRemote>, old_cfg: &Config)
    ensures
        final(new_cfg)@ == (Settings {
            remotes: restored_all(
                old(new_cfg)@.remotes,
                sent_views(sent@),
                old_cfg@.remotes,
            ),
            ..old(new_cfg)@
        }),
{
    let ghost before = new_cfg.remotes@;
    let mut remotes: Vec<RemoteConfig> = Vec::new();
    std::mem::swap(&mut remotes, &mut new_cfg.remotes);
    let n: usize = remotes.len();
    let mut out: Vec<RemoteConfig> = Vec::new();
    let mut i: usize = n;
    // From the last to the first, then turned round: each remote is taken over, not copied.
    while i > 0
        invariant
            i <= n,
            n == before.len(),
            remotes@ == before.subrange(0, i as int),
            out@.len() == n - i,
            forall|j: int|
                0 <= j < out@.len() ==> (#[trigger] out@[j])@ == restored(
                    before[n - 1 - j]@,
                    sent_at(sent_views(sent@), n - 1 - j),
                    remotes_of(old_cfg.remotes@),
                ),
        decreases i,
    {
        i = i - 1;
        let popped: Option<RemoteConfig> = remotes.pop();
        if let Some(r) = popped {
            let entry: Option<&SentRemote> = if i < sent.len() {
                Some(&sent[i])
            } else {
                None
            };
            out.push(restore_remote(r, entry, &old_cfg.remotes));
        }
        assert(remotes@ =~= before.subrange(0, i as int));
    }
    while out.len() > 0
        invariant
            n == before.len(),
            remotes@.len() + out@.len() == n,
            forall|j: int|
                0 <= j < out@.len() ==> (#[trigger] out@[j])@ == restored(
                    before[n - 1 - j]@,
                    sent_at(sent_views(sent@), n - 1 - j),
                    remotes_of(old_cfg.remotes@),
                ),
            forall|j: int|
                0 <= j < remotes@.len() ==> (#[trigger] remotes@[j])@ == restored(
                    before[j]@,
                    sent_at(sent_views(sent@), j),
                    remotes_of(old_cfg.remotes@),
                ),
        decreases out@.len(),
    {
        let popped: Option<RemoteConfig> = out.pop();
        if let Some(r) = popped {
            remotes.push(r);
        }
    }
    std::mem::swap(&mut remotes, &mut new_cfg.remotes);
    assert(new_cfg@.remotes =~= restored_all(
        old(new_cfg)@.remotes,
        sent_views(sent@),
        old_cfg@.remotes,
    ));
}

/// Put back the per-remote fields a save payload does not get to set. `sent` is the payload
/// the new settings were read from.
pub fn restore_server_owned_fields(
    new_cfg: &mut Config,
    sent: &serde_json::Value,
    old_cfg: &Config,
)
    ensures
        final(new_cfg)@ == (Settings {
            remotes: restored_all(
                old(new_cfg)@.remotes,
                sent_in(json_of(*sent)),
                old_cfg@.remotes,
            ),
            ..old(new_cfg)@
        }),
{
    let said: Vec<SentRemote> = sent_remotes(sent);
    restore_fields(new_cfg, &said, old_cfg);
}

/// A settings save never sets routing: whatever the payload carried, a remote that stands for
/// a stored one has the stored matrices, under its new name as under its old.
pub proof fn law_routing_is_not_a_save_s_to_set(
    new: Seq<Remote>,
    sent: Seq<Sent>,
    old: Seq<Remote>,
    i: int,
)
    requires
        0 <= i < new.len(),
    ensures
        stored_for(new[i], sent_at(sent, i), old) matches Some(k) ==> ({
            let r = restored_all(new, sent, old)[i];
            r.send_matrix == old[k].send_matrix && r.receive_matrix == old[k].receive_matrix
        }),
{
}

/// A password is kept unless one was typed, and a typed one, empty or not, replaces it.
pub proof fn law_a_password_is_kept_unless_typed(r: Remote, sent: Option<Sent>, old: Seq<Remote>)
    ensures
        stored_for(r, sent, old) matches Some(k) ==> restored(r, sent, old).password == (
        if sent matches Some(s) && s.password_sent {
            r.password
        } else {
            old[k].password
        }),
{
}

/// A remote with nothing stored keeps what it arrived with.
pub proof fn law_a_new_remote_is_left_alone(r: Remote, sent: Option<Sent>, old: Seq<Remote>)
    requires
        forall|k: int| 0 <= k < old.len() ==> (#[trigger] old[k]).name != (match sent {
            Some(s) => match s.orig_name {
                Some(name) => name,
                None => r.name,
            },
            None => r.name,
        }),
    ensures
        restored(r, sent, old) == r,
{
    let key = match sent {
        Some(s) => match s.orig_name {
            Some(name) => name,
            None => r.name,
        },
        None => r.name,
    };
    lemma_remote_named(old, key, old.len() as int);
}

/// What the API shows does not depend on a password beyond whether there is one.
pub proof fn law_no_password_is_shown(r: Remote, password: Seq<char>)
    requires
        (r.password.len() == 0) == (password.len() == 0),
    ensures
        masked(Remote { password, ..r }) == masked(r),
{
}

/// A remote of a save stands for the stored one it was loaded as: whatever it is called now,
/// it has the routing stored under the name it was loaded under, and the password stored there
/// unless one was typed. Everything else is as the save set it.
pub proof fn law_a_remote_is_known_by_the_name_it_was_loaded_under(
    r: Remote,
    sent: Option<Sent>,
    old: Seq<Remote>,
    k: int,
)
    requires
        0 <= k < old.len(),
        forall|j: int| 0 <= j < k ==> (#[trigger] old[j]).name != old[k].name,
        old[k].name == (if sent is Some && sent->Some_0.orig_name is Some {
            sent->Some_0.orig_name->Some_0
        } else {
            r.name
        }),
    ensures
        ({
            let out = restored(r, sent, old);
            let typed = sent is Some && sent->Some_0.password_sent;
            &&& out.send_matrix == old[k].send_matrix
            &&& out.receive_matrix == old[k].receive_matrix
            &&& typed ==> out.password == r.password
            &&& !typed ==> out.password == old[k].password
            &&& out.name == r.name && out.host == r.host && out.port == r.port
            &&& out.enabled == r.enabled && out.phase_lock == r.phase_lock
            &&& out.voice == r.voice && out.frame_ms == r.frame_ms
        }),
{
    lemma_remote_named(old, old[k].name, old.len() as int);
}

/// Every remote of a save is put right by what the payload says at its own place, and none is
/// added or lost.
pub proof fn law_each_remote_goes_by_its_own_entry(
    new: Seq<Remote>,
    sent: Seq<Sent>,
    old: Seq<Remote>,
    i: int,
)
    requires
        0 <= i < new.len(),
    ensures
        restored_all(new, sent, old).len() == new.len(),
        i < sent.len() ==> restored_all(new, sent, old)[i] == restored(
            new[i],
            Some(sent[i]),
            old,
        ),
        i >= sent.len() ==> restored_all(new, sent, old)[i] == restored(new[i], None, old),
{
}

/// Voice is put on 20 ms whatever it was on; audio keeps its frame size, and nothing else of
/// a remote changes.
pub proof fn law_voice_is_sent_at_twenty_milliseconds(r: Remote)
    ensures
        r.voice ==> voice_normalised(r) == (Remote { frame_ms: 0x41a0_0000, ..r }),
        !r.voice ==> voice_normalised(r) == r,
{
}

/// The API shows everything of a remote but its password, and of that whether there is one.
pub proof fn law_everything_but_the_password_is_shown(r: Remote)
    ensures
        ({
            let m = masked(r);
            &&& m.name == r.name && m.host == r.host && m.port == r.port
            &&& m.enabled == r.enabled && m.phase_lock == r.phase_lock && m.voice == r.voice
            &&& m.frame_ms == r.frame_ms && m.send_matrix == r.send_matrix
            &&& m.receive_matrix == r.receive_matrix
            &&& m.password_set <==> r.password.len() > 0
        }),
{
}

/// The remote a name finds is the first that has it, and where none has it none is found.
pub proof fn law_a_name_finds_its_first_remote(rs: Seq<Remote>, name: Seq<char>, i: int)
    ensures
        find(rs, name) == Some(i) <==> 0 <= i < rs.len() && rs[i].name == name && forall|j: int|
            0 <= j < i ==> (#[trigger] rs[j]).name != name,
        find(rs, name) is None <==> forall|j: int|
            0 <= j < rs.len() ==> (#[trigger] rs[j]).name != name,
{
    lemma_remote_named(rs, name, rs.len() as int);
    if let Some(k) = find(rs, name) {
        if 0 <= i < rs.len() && rs[i].name == name && forall|j: int|
            0 <= j < i ==> (#[trigger] rs[j]).name != name {
            assert(rs[k].name == name);
            assert(!(k < i));
        }
    }
}

/// The settings are read field by field from where they are kept.
pub proof fn law_settings_are_what_is_kept(c: Config, i: int)
    requires
        0 <= i < c.remotes@.len(),
    ensures
        c@.name == c.general.name@ && c@.port == c.general.port,
        c@.network_interface == c.general.network_interface@,
        c@.input_device == c.audio.input_device@,
        c@.output_device == c.audio.output_device@,
        c@.api_bind == c.api.bind@ && c@.api_port == c.api.port,
        c@.remotes.len() == c.remotes@.len(),
        ({
            let kept = c.remotes@[i];
            let r = c@.remotes[i];
            &&& r.name == kept.name@ && r.host == kept.host@ && r.port == kept.port
            &&& r.password == kept.password@ && r.enabled == kept.enabled
            &&& r.phase_lock == kept.phase_lock && r.voice == kept.voice && r.frame_ms
                == kept.frame_ms
            &&& kept.send_matrix matches Some(m) ==> r.send_matrix == Some(m@)
            &&& kept.send_matrix is None ==> r.send_matrix is None
            &&& kept.receive_matrix matches Some(m) ==> r.receive_matrix == Some(m@)
            &&& kept.receive_matrix is None ==> r.receive_matrix is None
        }),
{
}

/// What is shown of a remote is what is kept of it, all but the password, of which only
/// whether there is one.
pub proof fn law_what_is_shown_is_what_is_kept(c: Config, shown: Vec<MaskedRemote>, i: int)
    requires
        call_ensures(masked_remotes, (&c,), shown),
        0 <= i < c.remotes@.len(),
    ensures
        shown@.len() == c.remotes@.len(),
        ({
            let kept = c.remotes@[i];
            let s = shown@[i];
            &&& s.name@ == kept.name@ && s.host@ == kept.host@ && s.port == kept.port
            &&& s.enabled == kept.enabled && s.phase_lock == kept.phase_lock
            &&& s.voice == kept.voice && s.frame_ms == kept.frame_ms
            &&& s.send_matrix is Some == kept.send_matrix is Some
            &&& s.send_matrix is Some ==> s.send_matrix->Some_0@ == kept.send_matrix->Some_0@
            &&& s.receive_matrix is Some == kept.receive_matrix is Some
            &&& s.receive_matrix is Some ==> s.receive_matrix->Some_0@
                == kept.receive_matrix->Some_0@
            &&& s.password_set <==> kept.password@.len() > 0
        }),
{
    assert(shown@[i]@ == masked(c@.remotes[i]));
}

/// What a payload says of its remotes is read entry by entry: the name each was loaded under,
/// where it says one as a text, and whether it says a password at all. A payload without a
/// list of remotes says nothing.
pub proof fn law_a_payload_is_read_entry_by_entry(j: Json, i: int)
    ensures
        array_of(member(j, "remotes"@)) is None ==> sent_in(j).len() == 0,
        array_of(member(j, "remotes"@)) matches Some(entries) ==> {
            &&& sent_in(j).len() == entries.len()
            &&& 0 <= i < entries.len() ==> {
                &&& sent_in(j)[i].orig_name == text_of(member(entries[i], "orig_name"@))
                &&& sent_in(j)[i].password_sent <==> member(entries[i], "password"@) is Some
            }
        },
{
}

/// What was put back is in the settings that are left, remote by remote, and nothing else of
/// them moves.
pub proof fn law_only_remotes_are_put_back(
    new_cfg: &mut Config,
    sent: serde_json::Value,
    old_cfg: Config,
    done: (),
    i: int,
)
    requires
        call_ensures(restore_server_owned_fields, (new_cfg, &sent, &old_cfg), done),
        0 <= i < old(new_cfg)@.remotes.len(),
    ensures
        ({
            let before = old(new_cfg)@;
            let after = final(new_cfg)@;
            &&& after.name == before.name && after.port == before.port
            &&& after.network_interface == before.network_interface
            &&& after.input_device == before.input_device
            &&& after.output_device == before.output_device
            &&& after.api_bind == before.api_bind && after.api_port == before.api_port
            &&& after.remotes.len() == before.remotes.len()
            &&& after.remotes[i] == restored(
                before.remotes[i],
                sent_at(sent_in(json_of(sent)), i),
                old_cfg@.remotes,
            )
        }),
{
}

} // verus!
