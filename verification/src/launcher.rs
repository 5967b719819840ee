//! What the launcher window shows and offers, decided from the state it keeps: the status
//! line and main button, the rows for the installed version and the Steam shortcut, which
//! controls can be used, and the messages it reports. Drawing the widgets is left to the
//! front end.

use vstd::prelude::*;
use crate::api::GamePackage;
use crate::install::{InstallState, Progress};
use crate::steam::{PrefixChange, User};
use crate::text::{decimal, push_str, u64_to_string};

verus! {

/// What the check for the latest version has found so far.
pub enum Latest {
    Checking,
    Known(GamePackage),
    Failed(String),
}

/// Long-running work in progress.
#[derive(Clone, Copy, Debug, PartialEq, Eq, Structural)]
pub enum Task {
    Install,
    Steam,
    /// The game is running from the Log In button.
    Game,
}

/// What the main button does.
#[derive(Clone, Copy, Debug, PartialEq, Eq, Structural)]
pub enum Action {
    Nothing,
    Retry,
    Install,
    Update,
    AddToSteam,
}

/// The status line: a title, a detail line (empty when there is none) and the action
/// offered on the main button.
pub struct StatusView {
    pub title: String,
    pub detail: String,
    pub action: Action,
}

/// Whether an installation with state `s` is the latest build `pkg` (same build id and
/// archive MD5).
pub open spec fn up_to_date(s: InstallState, pkg: GamePackage) -> bool {
    s.package.id == pkg.id && s.package.md5@ == pkg.md5@
}

/// Title, detail and action of the status line, before any task is taken into account.
/// `archive` and `unpacked` are the download and unpacked sizes as shown, when known.
pub open spec fn status_parts(
    installed: Option<InstallState>,
    latest: Latest,
    shortcut: bool,
    archive: Option<Seq<char>>,
    unpacked: Option<Seq<char>>,
) -> (Seq<char>, Seq<char>, Action) {
    match latest {
        Latest::Known(pkg) => match installed {
            None => (
                "Not installed"@,
                "Version "@ + pkg.version_number@ + " · "@ + (match archive {
                    Some(a) => a,
                    None => "unknown size"@,
                }) + " download, about "@ + (match unpacked {
                    Some(u) => u,
                    None => "40 GB"@,
                }) + " after the game's first start"@,
                Action::Install,
            ),
            Some(s) => if up_to_date(s, pkg) {
                if shortcut {
                    ("Ready to play"@, "Launch it from your Steam library"@, Action::Nothing)
                } else {
                    ("Installed"@, "Add it to Steam to play"@, Action::AddToSteam)
                }
            } else {
                ("Update available"@, s.package.version_number@ + " → "@ + pkg.version_number@, Action::Update)
            },
        },
        Latest::Checking => ("Checking for updates…"@, Seq::empty(), Action::Nothing),
        Latest::Failed(e) => match installed {
            Some(s) => (
                "Installed"@,
                "Version "@ + s.package.version_number@ + " · couldn't check for updates: "@ + e@,
                if shortcut { Action::Nothing } else { Action::AddToSteam },
            ),
            None => ("Can't reach the update server"@, e@, Action::Retry),
        },
    }
}

/// Once the Steam shortcut exists, the status line never offers to add it, whatever is
/// installed and whatever the version check found; and while it does not exist, an
/// installed game that is not waiting for an update is offered for adding.
pub proof fn law_shortcut_offered_only_when_missing(
    installed: Option<InstallState>,
    latest: Latest,
    shortcut: bool,
    archive: Option<Seq<char>>,
    unpacked: Option<Seq<char>>,
)
    ensures
        shortcut ==> status_parts(installed, latest, shortcut, archive, unpacked).2 != Action::AddToSteam,
        !shortcut && installed is Some && !(latest is Checking) && !(latest matches Latest::Known(pkg)
            && !up_to_date(installed->0, pkg)) ==> status_parts(installed, latest, shortcut, archive, unpacked).2
            == Action::AddToSteam,
{
}

/// What the main button offers, from the installation and the version check: to install
/// when the latest build is known and nothing is installed, to update when something else
/// than that build (another build id or archive MD5) is installed, to retry when the check
/// failed and nothing is installed.
pub proof fn law_main_action(
    installed: Option<InstallState>,
    latest: Latest,
    shortcut: bool,
    archive: Option<Seq<char>>,
    unpacked: Option<Seq<char>>,
)
    ensures
        (status_parts(installed, latest, shortcut, archive, unpacked).2 == Action::Install) <==> (latest is Known
            && installed is None),
        (status_parts(installed, latest, shortcut, archive, unpacked).2 == Action::Update) <==> (latest matches Latest::Known(
            pkg,
        ) && installed matches Some(s) && (s.package.id != pkg.id || s.package.md5@ != pkg.md5@)),
        (status_parts(installed, latest, shortcut, archive, unpacked).2 == Action::Retry) <==> (latest is Failed
            && installed is None),
{
}

/// The title while an install is running: it says what the install is doing.
pub open spec fn busy_title(task: Option<Task>, action: Action, title: Seq<char>) -> Seq<char> {
    if task == Some(Task::Install) {
        match action {
            Action::Update => "Updating…"@,
            Action::Install => "Installing…"@,
            _ => "Repairing…"@,
        }
    } else {
        title
    }
}

fn text(s: &str) -> (r: String)
    ensures
        r@ == s@,
{
    s.to_owned()
}

fn joined2(a: &str, b: &str) -> (r: String)
    ensures
        r@ == a@ + b@,
{
    let mut r = text(a);
    push_str(&mut r, b);
    r
}

fn joined3(a: &str, b: &str, c: &str) -> (r: String)
    ensures
        r@ == a@ + b@ + c@,
{
    let mut r = text(a);
    push_str(&mut r, b);
    push_str(&mut r, c);
    r
}

/// The status line for the installation with state `installed`, given what the latest
/// version check found, whether the Steam shortcut exists and the task in progress.
/// `archive` and `unpacked` are the download and unpacked sizes as the front end writes
/// them, when the API gave them.
pub fn status_view(
    installed: &Option<InstallState>,
    latest: &Latest,
    shortcut: bool,
    task: Option<Task>,
    archive: Option<&str>,
    unpacked: Option<&str>,
) -> (r: StatusView)
    ensures
        ({
            let (title, detail, action) = status_parts(
                *installed,
                *latest,
                shortcut,
                match archive {
                    Some(a) => Some(a@),
                    None => None,
                },
                match unpacked {
                    Some(u) => Some(u@),
                    None => None,
                },
            );
            &&& r.title@ == busy_title(task, action, title)
            &&& r.detail@ == detail
            &&& r.action == action
        }),
{
    let (title, detail, action) = match latest {
        Latest::Known(pkg) => match installed {
            None => {
                let mut d = joined3("Version ", pkg.version_number.as_str(), " · ");
                match archive {
                    Some(a) => push_str(&mut d, a),
                    None => push_str(&mut d, "unknown size"),
                }
                push_str(&mut d, " download, about ");
                match unpacked {
                    Some(u) => push_str(&mut d, u),
                    None => push_str(&mut d, "40 GB"),
                }
                push_str(&mut d, " after the game's first start");
                (text("Not installed"), d, Action::Install)
            },
            Some(s) => {
                if s.package.id == pkg.id && s.package.md5 == pkg.md5 {
                    if shortcut {
                        (text("Ready to play"), text("Launch it from your Steam library"), Action::Nothing)
                    } else {
                        (text("Installed"), text("Add it to Steam to play"), Action::AddToSteam)
                    }
                } else {
                    let d = joined3(s.package.version_number.as_str(), " → ", pkg.version_number.as_str());
                    (text("Update available"), d, Action::Update)
                }
            },
        },
        Latest::Checking => (text("Checking for updates…"), String::new(), Action::Nothing),
        Latest::Failed(e) => match installed {
            Some(s) => {
                let mut d = joined3("Version ", s.package.version_number.as_str(), " · couldn't check for updates: ");
                push_str(&mut d, e.as_str());
                (text("Installed"), d, if shortcut { Action::Nothing } else { Action::AddToSteam })
            },
            None => (text("Can't reach the update server"), text(e.as_str()), Action::Retry),
        },
    };
    let title = match task {
        Some(Task::Install) => match action {
            Action::Update => text("Updating…"),
            Action::Install => text("Installing…"),
            _ => text("Repairing…"),
        },
        _ => title,
    };
    StatusView { title, detail, action }
}

/// The main button for an action: its label and whether it is styled as the suggested one.
pub fn primary_button(action: Action) -> (r: (&'static str, bool))
    ensures
        r.0@ == match action {
            Action::Retry => "Retry"@,
            Action::Update => "Update"@,
            Action::AddToSteam => "Add to Steam"@,
            _ => "Install"@,
        },
        r.1 == (action != Action::Retry),
{
    match action {
        Action::Nothing => ("Install", true),
        Action::Retry => ("Retry", false),
        Action::Install => ("Install", true),
        Action::Update => ("Update", true),
        Action::AddToSteam => ("Add to Steam", true),
    }
}

/// The subtitle of the version row: what is installed and what is available.
pub open spec fn version_text(installed: Option<InstallState>, latest: Latest) -> Seq<char> {
    match installed {
        Some(s) => match latest {
            Latest::Known(l) => if s.package.id != l.id {
                s.package.version_number@ + " installed, "@ + l.version_number@ + " available"@
            } else {
                s.package.version_number@ + " installed"@
            },
            _ => s.package.version_number@ + " installed"@,
        },
        None => match latest {
            Latest::Known(l) => l.version_number@ + " available"@,
            _ => "Not installed"@,
        },
    }
}

/// The subtitle of the version row.
pub fn version_subtitle(installed: &Option<InstallState>, latest: &Latest) -> (r: String)
    ensures
        r@ == version_text(*installed, *latest),
{
    match installed {
        Some(s) => match latest {
            Latest::Known(l) => {
                if s.package.id != l.id {
                    let mut r = joined3(s.package.version_number.as_str(), " installed, ", l.version_number.as_str());
                    push_str(&mut r, " available");
                    r
                } else {
                    joined2(s.package.version_number.as_str(), " installed")
                }
            },
            _ => joined2(s.package.version_number.as_str(), " installed"),
        },
        None => match latest {
            Latest::Known(l) => joined2(l.version_number.as_str(), " available"),
            _ => text("Not installed"),
        },
    }
}

/// Position of the first choice at or after `i` whose internal name is `id`.
pub open spec fn choice_from(choices: Seq<(String, String)>, id: Seq<char>, i: int) -> Option<int>
    decreases choices.len() - i,
{
    if i < 0 || i >= choices.len() {
        None
    } else if choices[i].0@ == id {
        Some(i)
    } else {
        choice_from(choices, id, i + 1)
    }
}

/// Position of the first choice whose internal name is `id`.
pub open spec fn choice_index(choices: Seq<(String, String)>, id: Seq<char>) -> Option<int> {
    choice_from(choices, id, 0)
}

proof fn lemma_choice_from(choices: Seq<(String, String)>, id: Seq<char>, i: int)
    requires
        0 <= i,
    ensures
        choice_from(choices, id, i) matches Some(k) ==> i <= k < choices.len() && choices[k].0@ == id,
    decreases choices.len() - i,
{
    if 0 <= i < choices.len() && choices[i].0@ != id {
        lemma_choice_from(choices, id, i + 1);
    }
}

fn find_choice(choices: &[(String, String)], id: &str) -> (r: Option<usize>)
    ensures
        match r {
            Some(i) => choice_index(choices@, id@) == Some(i as int) && i < choices@.len(),
            None => choice_index(choices@, id@) is None,
        },
{
    let mut i: usize = 0;
    while i < choices.len()
        invariant
            i <= choices@.len(),
            choice_index(choices@, id@) == choice_from(choices@, id@, i as int),
        decreases choices@.len() - i,
    {
        if crate::text::str_eq(choices[i].0.as_str(), id) {
            return Some(i);
        }
        i += 1;
    }
    None
}

/// How a compat tool is shown: the label of its choice, or its internal name when it is
/// not among the choices.
pub open spec fn tool_label_of(choices: Seq<(String, String)>, id: Seq<char>) -> Seq<char> {
    match choice_index(choices, id) {
        Some(i) => choices[i].1@,
        None => id,
    }
}

/// How the compat tool `id` is shown, given the (internal name, label) choices.
pub fn tool_label(choices: &[(String, String)], id: &str) -> (r: String)
    ensures
        r@ == tool_label_of(choices@, id@),
{
    match find_choice(choices, id) {
        Some(i) => text(choices[i].1.as_str()),
        None => text(id),
    }
}

/// The subtitle of the Steam shortcut row.
pub open spec fn shortcut_text(
    has_steam: bool,
    shortcut: bool,
    exe_present: bool,
    tool: Option<Seq<char>>,
    choices: Seq<(String, String)>,
) -> Seq<char> {
    if !has_steam {
        "Steam was not found"@
    } else if !shortcut {
        if !exe_present {
            "Install the game first"@
        } else {
            "Not added yet"@
        }
    } else {
        match tool {
            Some(t) => "Added · "@ + tool_label_of(choices, t),
            None => "Added · Steam's default Proton"@,
        }
    }
}

/// The subtitle of the Steam shortcut row: whether Steam was found, whether the shortcut
/// exists and, if so, the compat tool forced on it (`tool`) as the choices name it.
pub fn shortcut_subtitle(
    has_steam: bool,
    shortcut: bool,
    exe_present: bool,
    tool: Option<&str>,
    choices: &[(String, String)],
) -> (r: String)
    ensures
        r@ == shortcut_text(
            has_steam,
            shortcut,
            exe_present,
            match tool {
                Some(t) => Some(t@),
                None => None,
            },
            choices@,
        ),
{
    if !has_steam {
        text("Steam was not found")
    } else if !shortcut {
        if !exe_present {
            text("Install the game first")
        } else {
            text("Not added yet")
        }
    } else {
        match tool {
            Some(t) => {
                let label = tool_label(choices, t);
                joined2("Added · ", label.as_str())
            },
            None => text("Added · Steam's default Proton"),
        }
    }
}

/// Which controls of the window can be used or are shown.
#[derive(Clone, Copy, Debug, PartialEq, Eq, Structural)]
pub struct Controls {
    pub primary_sensitive: bool,
    pub primary_visible: bool,
    pub cancel_visible: bool,
    pub refresh_sensitive: bool,
    pub dir_sensitive: bool,
    pub repair_sensitive: bool,
    pub steam_button_visible: bool,
    pub steam_button_sensitive: bool,
    pub remove_visible: bool,
    pub remove_sensitive: bool,
    pub login_visible: bool,
    pub login_sensitive: bool,
    /// The login button reads "Running…" rather than "Log In".
    pub login_running: bool,
    pub user_row_sensitive: bool,
    /// The Game Mode banner is shown.
    pub game_mode_banner: bool,
}

/// The controls for the current situation: the task in progress, the action on the main
/// button, whether the game is installed, whether the latest build is known, whether Steam
/// and one of its users were found, whether the game's exe exists, whether the shortcut
/// exists, whether the session is Steam's Game Mode, and how many Steam users there are.
pub fn controls(
    task: Option<Task>,
    action: Action,
    installed: bool,
    latest_known: bool,
    has_steam: bool,
    has_user: bool,
    exe_present: bool,
    shortcut: bool,
    game_mode: bool,
    user_count: usize,
) -> (r: Controls)
    ensures
        r == (Controls {
            primary_sensitive: task is None && action != Action::Nothing,
            primary_visible: task != Some(Task::Install) && action != Action::Nothing,
            cancel_visible: task == Some(Task::Install),
            refresh_sensitive: task is None,
            dir_sensitive: task is None,
            repair_sensitive: task is None && installed && latest_known,
            steam_button_visible: shortcut,
            steam_button_sensitive: task is None && has_steam && has_user && exe_present,
            remove_visible: shortcut,
            remove_sensitive: task is None,
            login_visible: shortcut && exe_present,
            login_sensitive: task is None && !game_mode,
            login_running: task == Some(Task::Game),
            user_row_sensitive: task is None && user_count > 1,
            game_mode_banner: game_mode,
        }),
{
    let busy = task.is_some();
    let installing = match task {
        Some(Task::Install) => true,
        _ => false,
    };
    let in_game = match task {
        Some(Task::Game) => true,
        _ => false,
    };
    let nothing = action == Action::Nothing;
    Controls {
        primary_sensitive: !busy && !nothing,
        primary_visible: !installing && !nothing,
        cancel_visible: installing,
        refresh_sensitive: !busy,
        dir_sensitive: !busy,
        repair_sensitive: !busy && installed && latest_known,
        steam_button_visible: shortcut,
        steam_button_sensitive: !busy && has_steam && has_user && exe_present,
        remove_visible: shortcut,
        remove_sensitive: !busy,
        login_visible: shortcut && exe_present,
        login_sensitive: !busy && !game_mode,
        login_running: in_game,
        user_row_sensitive: !busy && user_count > 1,
        game_mode_banner: game_mode,
    }
}

/// The banner shown in Game Mode.
pub const GAME_MODE_BANNER: &'static str =
    "You're in Game Mode. Switch to Desktop Mode to add or update the Steam shortcut.";


/// Internal names and labels of the compat tools always offered.
pub open spec fn builtin_tools_spec() -> Seq<(Seq<char>, Seq<char>)> {
    seq![
        ("proton_10"@, "Proton 10.0"@),
        ("proton_experimental"@, "Proton Experimental"@),
        ("proton_9"@, "Proton 9.0"@),
    ]
}

fn choice(id: &str, label: &str) -> (r: (String, String))
    ensures
        r.0@ == id@,
        r.1@ == label@,
{
    (text(id), text(label))
}

/// The compat tools offered: the built-in ones, then the custom ones Steam has (`custom`),
/// then the configured tool `current` under its own name when none of those is it.
pub fn tool_choices(custom: Vec<(String, String)>, current: &str) -> (r: Vec<(String, String)>)
    ensures
        r@.len() == 3 + custom@.len() + (if choice_index(r@.take(3 + custom@.len() as int), current@) is Some { 0int } else { 1int }),
        forall|i: int| 0 <= i < 3 ==> (#[trigger] r@[i]).0@ == builtin_tools_spec()[i].0 && r@[i].1@ == builtin_tools_spec()[i].1,
        forall|i: int| 0 <= i < custom@.len() ==> r@[3 + i] == #[trigger] custom@[i],
        r@.len() > 3 + custom@.len() ==> r@.last().0@ == current@ && r@.last().1@ == current@,
{
    let mut out: Vec<(String, String)> = Vec::new();
    out.push(choice("proton_10", "Proton 10.0"));
    out.push(choice("proton_experimental", "Proton Experimental"));
    out.push(choice("proton_9", "Proton 9.0"));
    proof {
        reveal_strlit("proton_10");
        reveal_strlit("Proton 10.0");
        reveal_strlit("proton_experimental");
        reveal_strlit("Proton Experimental");
        reveal_strlit("proton_9");
        reveal_strlit("Proton 9.0");
    }
    let mut custom = custom;
    let ghost c0 = custom@;
    let ghost first = out@;
    out.append(&mut custom);
    assert(out@ =~= first + c0);
    let found = find_choice(out.as_slice(), current);
    let ghost before = out@;
    assert(before.take(3 + c0.len() as int) =~= before);
    if found.is_none() {
        out.push(choice(current, current));
        assert(out@.take(3 + c0.len() as int) =~= before);
    }
    out
}

/// Position of the tool `current` among the choices, or the first one.
pub fn tool_index(choices: &[(String, String)], current: &str) -> (r: usize)
    ensures
        r == match choice_index(choices@, current@) {
            Some(i) => i as usize,
            None => 0usize,
        },
{
    match find_choice(choices, current) {
        Some(i) => i,
        None => 0,
    }
}

/// How a Steam account is listed: its persona name and account id, or the id alone.
pub open spec fn user_text(u: User) -> Seq<char> {
    match u.persona {
        Some(p) => p@ + " ("@ + decimal(u.account_id as nat) + ")"@,
        None => decimal(u.account_id as nat),
    }
}

/// How a Steam account is listed.
pub fn user_label(u: &User) -> (r: String)
    ensures
        r@ == user_text(*u),
{
    let id = u64_to_string(u.account_id as u64);
    match &u.persona {
        Some(p) => {
            let mut r = joined3(p.as_str(), " (", id.as_str());
            push_str(&mut r, ")");
            r
        },
        None => id,
    }
}


/// Position of the first account at or after `i` with id `id`.
pub open spec fn user_from(users: Seq<User>, id: u32, i: int) -> Option<int>
    decreases users.len() - i,
{
    if i < 0 || i >= users.len() {
        None
    } else if users[i].account_id == id {
        Some(i)
    } else {
        user_from(users, id, i + 1)
    }
}

fn find_user(users: &[User], id: u32) -> (r: Option<usize>)
    ensures
        match r {
            Some(i) => user_from(users@, id, 0) == Some(i as int),
            None => user_from(users@, id, 0) is None,
        },
{
    let mut i: usize = 0;
    while i < users.len()
        invariant
            i <= users@.len(),
            user_from(users@, id, 0) == user_from(users@, id, i as int),
        decreases users@.len() - i,
    {
        if users[i].account_id == id {
            return Some(i);
        }
        i += 1;
    }
    None
}

/// The account the shortcut goes to, as a position in `users`: the one with the chosen id,
/// or the first (the most recently logged in) when none is chosen.
pub fn selected_user(users: &[User], chosen: Option<u32>) -> (r: Option<usize>)
    ensures
        r == match chosen {
            Some(id) => match user_from(users@, id, 0) {
                Some(i) => Some(i as usize),
                None => None,
            },
            None => if users@.len() > 0 { Some(0usize) } else { None },
        },
{
    match chosen {
        Some(id) => find_user(users, id),
        None => if users.len() > 0 { Some(0) } else { None },
    }
}

/// The row selected in the account list: the chosen account, else the first row.
pub fn user_row(users: &[User], chosen: Option<u32>) -> (r: usize)
    ensures
        r == match chosen {
            Some(id) => match user_from(users@, id, 0) {
                Some(i) => i as usize,
                None => 0usize,
            },
            None => 0usize,
        },
{
    match chosen {
        Some(id) => match find_user(users, id) {
            Some(i) => i,
            None => 0,
        },
        None => 0,
    }
}

/// First position at or after `i` whose count is not zero.
pub open spec fn first_nonzero(counts: Seq<usize>, i: int) -> Option<int>
    decreases counts.len() - i,
{
    if i < 0 || i >= counts.len() {
        None
    } else if counts[i] > 0 {
        Some(i)
    } else {
        first_nonzero(counts, i + 1)
    }
}

/// Which of the Steam installations found to use, given how many accounts each has: the
/// first with an account, else the first one.
pub fn pick_install(user_counts: &[usize]) -> (r: Option<usize>)
    ensures
        r == match first_nonzero(user_counts@, 0) {
            Some(i) => Some(i as usize),
            None => if user_counts@.len() > 0 { Some(0usize) } else { None },
        },
{
    let mut i: usize = 0;
    while i < user_counts.len()
        invariant
            i <= user_counts@.len(),
            first_nonzero(user_counts@, 0) == first_nonzero(user_counts@, i as int),
        decreases user_counts@.len() - i,
    {
        if user_counts[i] > 0 {
            return Some(i);
        }
        i += 1;
    }
    if user_counts.len() > 0 { Some(0) } else { None }
}

/// What pressing the main button starts.
#[derive(Clone, Copy, Debug, PartialEq, Eq, Structural)]
pub enum Step {
    Idle,
    CheckLatest,
    Install,
    AddToSteam,
}

/// What the main button starts for an action.
pub fn primary_step(action: Action) -> (r: Step)
    ensures
        r == match action {
            Action::Nothing => Step::Idle,
            Action::Retry => Step::CheckLatest,
            Action::Install | Action::Update => Step::Install,
            Action::AddToSteam => Step::AddToSteam,
        },
{
    match action {
        Action::Nothing => Step::Idle,
        Action::Retry => Step::CheckLatest,
        Action::Install | Action::Update => Step::Install,
        Action::AddToSteam => Step::AddToSteam,
    }
}

/// Whether the game's prefix needs its single-window setting changed: it does unless it
/// already has the wanted size and either the prefix exists or the mode is to be off.
pub fn prefix_needs_change(current: Option<(u32, u32)>, wanted: Option<(u32, u32)>, ready: bool) -> (r: bool)
    ensures
        r == !(current == wanted && (ready || wanted is None)),
{
    let same = match (current, wanted) {
        (Some((a, b)), Some((c, d))) => a == c && b == d,
        (None, None) => true,
        _ => false,
    };
    !(same && (ready || wanted.is_none()))
}

/// A message for the user; `prefs` when it belongs to the preferences dialog (shown there
/// while it is open).
pub struct Notice {
    pub text: String,
    pub prefs: bool,
}

pub open spec fn prefix_notice_spec(change: PrefixChange, explicit: bool, turning_on: bool) -> Option<(Seq<char>, bool)> {
    match change {
        PrefixChange::Applied => if explicit {
            Some(("Saved. It takes effect the next time Aniimo starts."@, true))
        } else if turning_on {
            Some(("Turned on single-window mode for logging in from Game Mode"@, false))
        } else {
            None
        },
        PrefixChange::Pending => if explicit {
            Some(("Saved. It will be set up after Aniimo's first launch, when you next open this launcher."@, true))
        } else {
            None
        },
    }
}

/// What to tell the user after the prefix's single-window setting was changed (`change`):
/// `explicit` when the user just changed the setting, `turning_on` when a size was set.
pub fn prefix_notice(change: PrefixChange, explicit: bool, turning_on: bool) -> (r: Option<Notice>)
    ensures
        match r {
            Some(n) => prefix_notice_spec(change, explicit, turning_on) == Some((n.text@, n.prefs)),
            None => prefix_notice_spec(change, explicit, turning_on) is None,
        },
{
    match change {
        PrefixChange::Applied => {
            if explicit {
                Some(Notice { text: text("Saved. It takes effect the next time Aniimo starts."), prefs: true })
            } else if turning_on {
                Some(Notice { text: text("Turned on single-window mode for logging in from Game Mode"), prefs: false })
            } else {
                None
            }
        },
        PrefixChange::Pending => {
            if explicit {
                Some(
                    Notice {
                        text: text("Saved. It will be set up after Aniimo's first launch, when you next open this launcher."),
                        prefs: true,
                    },
                )
            } else {
                None
            }
        },
    }
}

/// What to tell the user when the prefix cannot be changed because the game is running:
/// nothing unless the user just changed the setting.
pub fn game_running_notice(explicit: bool) -> (r: Option<Notice>)
    ensures
        match r {
            Some(n) => explicit && n.prefs
                && n.text@ == "Close Aniimo first. The change will be applied the next time you open this launcher."@,
            None => !explicit,
        },
{
    if explicit {
        Some(
            Notice {
                text: text("Close Aniimo first. The change will be applied the next time you open this launcher."),
                prefs: true,
            },
        )
    } else {
        None
    }
}

/// The message after an install finished: repaired, updated or installed, with the version.
pub fn install_done_message(version: &str, repair: bool, was_installed: bool) -> (r: String)
    ensures
        r@ == if repair {
            "Aniimo "@ + version@ + " repaired"@
        } else if was_installed {
            "Aniimo updated to "@ + version@
        } else {
            "Aniimo "@ + version@ + " installed"@
        },
{
    if repair {
        joined3("Aniimo ", version, " repaired")
    } else if was_installed {
        joined2("Aniimo updated to ", version)
    } else {
        joined3("Aniimo ", version, " installed")
    }
}

/// The message after the shortcut was written with the compat tool shown as `tool`.
pub fn added_message(created: bool, tool: &str) -> (r: String)
    ensures
        r@ == (if created { "Added to Steam"@ } else { "Steam shortcut updated"@ }) + " · "@ + tool@,
{
    if created {
        joined3("Added to Steam", " · ", tool)
    } else {
        joined3("Steam shortcut updated", " · ", tool)
    }
}

/// Two decimal digits, with a leading zero below ten.
pub open spec fn two_digits(n: nat) -> Seq<char> {
    if n < 10 {
        seq!['0'] + decimal(n)
    } else {
        decimal(n)
    }
}

fn push_two_digits(out: &mut String, n: u64)
    ensures
        final(out)@ == old(out)@ + two_digits(n as nat),
{
    if n < 10 {
        push_str(out, "0");
        proof {
            reveal_strlit("0");
        }
    }
    let d = u64_to_string(n);
    push_str(out, d.as_str());
}

/// Time left as shown: seconds under a minute, minutes and seconds under an hour, else
/// hours and minutes.
pub open spec fn eta_spec(s: nat) -> Seq<char> {
    if s < 60 {
        decimal(s) + "s"@
    } else if s < 3600 {
        decimal(s / 60) + "m "@ + two_digits(s % 60) + "s"@
    } else {
        decimal(s / 3600) + "h "@ + two_digits((s % 3600) / 60) + "m"@
    }
}

/// Time left as shown, for `secs` whole seconds.
pub fn eta_text(secs: u64) -> (r: String)
    ensures
        r@ == eta_spec(secs as nat),
{
    if secs < 60 {
        let mut r = u64_to_string(secs);
        push_str(&mut r, "s");
        r
    } else if secs < 3600 {
        let mut r = u64_to_string(secs / 60);
        push_str(&mut r, "m ");
        push_two_digits(&mut r, secs % 60);
        push_str(&mut r, "s");
        r
    } else {
        let mut r = u64_to_string(secs / 3600);
        push_str(&mut r, "h ");
        push_two_digits(&mut r, (secs % 3600) / 60);
        push_str(&mut r, "m");
        r
    }
}

/// The stage of a progress report as the window names it, the bytes done and, when
/// known, the total.
pub fn stage_of(p: Progress) -> (r: (&'static str, u64, Option<u64>))
    ensures
        match p {
            Progress::Downloading { done, total } => r.0@ == "Downloading"@ && r.1 == done && r.2 == total,
            Progress::Verifying { done, total } => r.0@ == "Verifying"@ && r.1 == done && r.2 == Some(total),
            Progress::Extracting { done, total } => r.0@ == "Unpacking"@ && r.1 == done && r.2 == Some(total),
        },
{
    match p {
        Progress::Downloading { done, total } => ("Downloading", done, total),
        Progress::Verifying { done, total } => ("Verifying", done, Some(total)),
        Progress::Extracting { done, total } => ("Unpacking", done, Some(total)),
    }
}

/// The last part of a path, as `Path::file_name` gives it: none for a path that ends at
/// the root, in `.` or in `..`.
pub open spec fn file_name_of(p: Seq<char>) -> Option<Seq<char>> {
    let cs = crate::steam::path_components(p);
    if cs.len() == 0 || cs.last() == seq!['/'] || cs.last() == seq!['.'] || cs.last() == seq!['.', '.'] {
        None
    } else {
        Some(cs.last())
    }
}

/// Where to install when the user picks the folder `picked`: the folder itself if it
/// already holds the game (`has_game`), is empty, or is named after the game (ignoring
/// ASCII case); otherwise a subfolder named after the game.
pub fn install_dir_choice(picked: &str, has_game: bool, is_empty: bool) -> (r: String)
    ensures
        r@ == if has_game || is_empty || (file_name_of(picked@) matches Some(n) && crate::text::chars_eq_ci(
            n,
            crate::api::GAME_NAME@,
        )) {
            picked@
        } else {
            crate::steam::joined(picked@, crate::api::GAME_NAME@)
        },
{
    let cs = crate::text::chars_of(picked);
    let parts = crate::steam::path_parts(cs.as_slice());
    let ghost comps = parts@.map_values(|v: Vec<char>| v@);
    let named = if parts.len() == 0 {
        false
    } else {
        let last = &parts[parts.len() - 1];
        assert(last@ == comps.last());
        let special = (last.len() == 1 && (last[0] == '/' || last[0] == '.')) || (last.len() == 2 && last[0] == '.'
            && last[1] == '.');
        proof {
            if last@ == seq!['/'] || last@ == seq!['.'] {
                assert(last@.len() == 1 && (last@[0] == '/' || last@[0] == '.'));
            }
            if last@ == seq!['.', '.'] {
                assert(last@.len() == 2 && last@[0] == '.' && last@[1] == '.');
            }
            if last@.len() == 1 && last@[0] == '/' {
                assert(last@ =~= seq!['/']);
            }
            if last@.len() == 1 && last@[0] == '.' {
                assert(last@ =~= seq!['.']);
            }
            if last@.len() == 2 && last@[0] == '.' && last@[1] == '.' {
                assert(last@ =~= seq!['.', '.']);
            }
        }
        if special {
            false
        } else {
            let game = crate::text::chars_of(crate::api::GAME_NAME);
            crate::text::eq_ci_chars(last.as_slice(), game.as_slice())
        }
    };
    if has_game || is_empty || named {
        text(picked)
    } else {
        crate::steam::path_join(picked, crate::api::GAME_NAME)
    }
}

/// The game's exe in the install directory `dir`: under the name the installed build
/// gives, or the default name when nothing is installed.
pub fn target_exe(dir: &str, installed: &Option<InstallState>) -> (r: String)
    ensures
        r@ == crate::steam::joined(
            dir@,
            match installed {
                Some(s) => if s.package.exe_start_name@.len() == 0 {
                    crate::api::DEFAULT_EXE@
                } else {
                    s.package.exe_start_name@
                },
                None => crate::api::DEFAULT_EXE@,
            },
        ),
{
    match installed {
        Some(s) => crate::install::exe_path(dir, &s.package),
        None => crate::steam::path_join(dir, crate::api::DEFAULT_EXE),
    }
}

} // verus!
