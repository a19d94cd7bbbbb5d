//! What the desktop app decides around the library: how it answers its
//! command-line arguments, which notebook it works in, in which order a
//! folder goes to the trash, what a timer command does to the running timer,
//! when a finished countdown is cleared, and how a finished timer is
//! announced.
use vstd::prelude::*;

use crate::text::{chars_of, eq_chars, join, join_chars, push_all, split_chars, split_on, string_of, trim, trim_range, views};
use crate::timer::{Command, CommandView, Kind, Timer};

verus! {

/// What the app does when it is launched again with arguments.
#[derive(Debug, Clone, Copy, PartialEq, Eq, Structural)]
pub enum Launch {
    /// `--toggle`: show the window, or hide it.
    Toggle,
    /// `--new`: show the window on a new note.
    NewNote,
    /// `--capture`: show the window and start a screen capture for OCR.
    Capture,
    /// Anything else: show the window.
    Show,
}

/// Whether one of `args` is `a`.
pub open spec fn has_arg(args: Seq<String>, a: Seq<char>) -> bool {
    exists|i: int| 0 <= i < args.len() && (#[trigger] args[i])@ == a
}

/// Whether one of `args` is `a`.
fn any_arg(args: &Vec<String>, a: &str) -> (r: bool)
    ensures
        r == has_arg(args@, a@),
{
    let ac = chars_of(a);
    let mut i: usize = 0;
    while i < args.len()
        invariant
            i <= args@.len(),
            ac@ == a@,
            forall|j: int| 0 <= j < i ==> (#[trigger] args@[j])@ != a@,
        decreases args@.len() - i,
    {
        if eq_chars(chars_of(args[i].as_str()).as_slice(), ac.as_slice()) {
            return true;
        }
        i = i + 1;
    }
    false
}

/// The action for the arguments of a new launch: `--toggle` first, then
/// `--new`, then `--capture`, else showing the window.
pub fn launch_action(args: &Vec<String>) -> (r: Launch)
    ensures
        r == if has_arg(args@, "--toggle"@) {
            Launch::Toggle
        } else if has_arg(args@, "--new"@) {
            Launch::NewNote
        } else if has_arg(args@, "--capture"@) {
            Launch::Capture
        } else {
            Launch::Show
        },
{
    if any_arg(args, "--toggle") {
        Launch::Toggle
    } else if any_arg(args, "--new") {
        Launch::NewNote
    } else if any_arg(args, "--capture") {
        Launch::Capture
    } else {
        Launch::Show
    }
}

/// The working notebook a user picks.
#[derive(Debug, Clone)]
pub enum RootChoice {
    /// An existing folder, by id.
    Existing(String),
    /// A new top-level folder with this title.
    Create(String),
    /// Neither an id nor a title that is not blank.
    Missing,
}

/// The notebook to work in: the folder id when one is given, else a new
/// folder when a title that is not blank is given.
pub fn root_choice(folder_id: Option<String>, new_title: Option<String>) -> (r: RootChoice)
    ensures
        match folder_id {
            Some(id) if id@.len() > 0 => r matches RootChoice::Existing(x) && x@ == id@,
            _ => match new_title {
                Some(t) if trim(t@).len() > 0 => r matches RootChoice::Create(x) && x@ == t@,
                _ => r is Missing,
            },
        },
{
    if let Some(id) = folder_id {
        if chars_of(id.as_str()).len() > 0 {
            return RootChoice::Existing(id);
        }
    }
    match new_title {
        Some(t) => {
            let tc = chars_of(t.as_str());
            let (a, b) = trim_range(tc.as_slice(), 0, tc.len());
            assert(tc@.subrange(0, tc@.len() as int) =~= t@);
            if a < b {
                RootChoice::Create(t)
            } else {
                RootChoice::Missing
            }
        },
        None => RootChoice::Missing,
    }
}

/// The order in which a folder goes to the trash: the notes inside it
/// first, then its folders from the deepest back to itself (`tree` lists the
/// folder and everything under it, deepest last).
pub fn trash_order(tree: &Vec<String>, notes: &Vec<String>) -> (r: Vec<String>)
    ensures
        r@.len() == notes@.len() + tree@.len(),
        forall|i: int| 0 <= i < notes@.len() ==> (#[trigger] r@[i])@ == notes@[i]@,
        forall|i: int| 0 <= i < tree@.len() ==> (#[trigger] r@[notes@.len() + i])@ == tree@[tree@.len() - 1 - i]@,
{
    let mut r: Vec<String> = Vec::new();
    let mut i: usize = 0;
    while i < notes.len()
        invariant
            i <= notes@.len(),
            r@.len() == i,
            forall|k: int| 0 <= k < i ==> (#[trigger] r@[k])@ == notes@[k]@,
        decreases notes@.len() - i,
    {
        r.push(string_of(chars_of(notes[i].as_str()).as_slice()));
        i = i + 1;
    }
    let mut j: usize = tree.len();
    while j > 0
        invariant
            j <= tree@.len(),
            r@.len() == notes@.len() + (tree@.len() - j),
            forall|k: int| 0 <= k < notes@.len() ==> (#[trigger] r@[k])@ == notes@[k]@,
            forall|k: int| 0 <= k < tree@.len() - j ==> (#[trigger] r@[notes@.len() + k])@ == tree@[tree@.len() - 1 - k]@,
        decreases j,
    {
        j = j - 1;
        r.push(string_of(chars_of(tree[j].as_str()).as_slice()));
    }
    r
}

/// What a timer command does to the running timer: pause or resume it,
/// start it over, stop it (no timer left), or replace it with the timer the
/// command starts.
pub fn apply_timer_command(slot: Option<Timer>, cmd: &Command, now: i64) -> (r: Option<Timer>)
    requires
        cmd@ is Pause ==> (slot matches Some(t) ==> t.elapsed_fits(now as int)),
    ensures
        match cmd@ {
            CommandView::Pause => match slot {
                Some(t) => r == Some(t.toggled(now as int)),
                None => r is None,
            },
            CommandView::Restart => match slot {
                Some(t) => r matches Some(u) && Timer::restarts(t, u, now as int),
                None => r is None,
            },
            CommandView::Stop => r is None,
            _ => Timer::starts(r, cmd@, now as int),
        },
{
    match cmd {
        Command::Pause => match slot {
            Some(mut t) => {
                t.toggle_pause(now);
                Some(t)
            },
            None => None,
        },
        Command::Restart => match slot {
            Some(mut t) => {
                t.restart(now);
                Some(t)
            },
            None => None,
        },
        Command::Stop => None,
        _ => Timer::start(cmd, now),
    }
}

/// Whether the timer left a few seconds after a countdown finished is that
/// finished countdown, to be cleared.
pub fn clears_finished(slot: &Option<Timer>) -> (r: bool)
    ensures
        r == (slot matches Some(t) && !t.running && t.kind == Kind::Countdown),
{
    match slot {
        Some(t) => !t.running && t.kind == Kind::Countdown,
        None => false,
    }
}

/// The three messages of a language: time is up, work is done, the break
/// is over.
pub open spec fn notices(lang: Seq<char>) -> (Seq<char>, Seq<char>, Seq<char>) {
    if lang == "it"@ {
        ("Tempo scaduto"@, "Fine lavoro: pausa!"@, "Fine pausa: al lavoro!"@)
    } else if lang == "es"@ {
        ("Se acabó el tiempo"@, "Fin del trabajo: ¡descanso!"@, "Fin del descanso: ¡a trabajar!"@)
    } else if lang == "fr"@ {
        ("Temps écoulé"@, "Fin du travail : pause !"@, "Fin de la pause : au travail !"@)
    } else if lang == "de"@ {
        ("Zeit abgelaufen"@, "Arbeitszeit vorbei: Pause!"@, "Pause vorbei: weiter geht's!"@)
    } else if lang == "pt"@ {
        ("O tempo acabou"@, "Fim do trabalho: pausa!"@, "Fim da pausa: ao trabalho!"@)
    } else if lang == "nl"@ {
        ("De tijd is om"@, "Werk klaar: pauze!"@, "Pauze voorbij: aan het werk!"@)
    } else if lang == "pl"@ {
        ("Czas minął"@, "Koniec pracy: przerwa!"@, "Koniec przerwy: do pracy!"@)
    } else {
        ("Time's up"@, "Work done: take a break!"@, "Break over: back to work!"@)
    }
}

/// The notification of a finished timer: the message for `event`
/// (`"work_done"`, `"rest_done"`, or a countdown's end) in `lang`, after the
/// timer's title and a dash when it has one.
pub open spec fn notification_spec(lang: Seq<char>, event: Seq<char>, title: Seq<char>) -> Seq<char> {
    let (done, work, rest) = notices(lang);
    let msg = if event == "work_done"@ {
        work
    } else if event == "rest_done"@ {
        rest
    } else {
        done
    };
    if title.len() == 0 {
        msg
    } else {
        title + " — "@ + msg
    }
}

/// Whether `a` is the text `b`.
fn same(a: &str, b: &str) -> (r: bool)
    ensures
        r == (a@ == b@),
{
    eq_chars(chars_of(a).as_slice(), chars_of(b).as_slice())
}

/// The messages of a language.
fn notices_of(lang: &str) -> (r: (&'static str, &'static str, &'static str))
    ensures
        (r.0@, r.1@, r.2@) == notices(lang@),
{
    if same(lang, "it") {
        ("Tempo scaduto", "Fine lavoro: pausa!", "Fine pausa: al lavoro!")
    } else if same(lang, "es") {
        ("Se acabó el tiempo", "Fin del trabajo: ¡descanso!", "Fin del descanso: ¡a trabajar!")
    } else if same(lang, "fr") {
        ("Temps écoulé", "Fin du travail : pause !", "Fin de la pause : au travail !")
    } else if same(lang, "de") {
        ("Zeit abgelaufen", "Arbeitszeit vorbei: Pause!", "Pause vorbei: weiter geht's!")
    } else if same(lang, "pt") {
        ("O tempo acabou", "Fim do trabalho: pausa!", "Fim da pausa: ao trabalho!")
    } else if same(lang, "nl") {
        ("De tijd is om", "Werk klaar: pauze!", "Pauze voorbij: aan het werk!")
    } else if same(lang, "pl") {
        ("Czas minął", "Koniec pracy: przerwa!", "Koniec przerwy: do pracy!")
    } else {
        ("Time's up", "Work done: take a break!", "Break over: back to work!")
    }
}

/// The notification text of a finished timer.
pub fn notification_text(lang: &str, event: &str, title: &str) -> (r: String)
    ensures
        r@ == notification_spec(lang@, event@, title@),
{
    let (done, work, rest) = notices_of(lang);
    let msg = if same(event, "work_done") {
        work
    } else if same(event, "rest_done") {
        rest
    } else {
        done
    };
    let mut out = chars_of(title);
    if out.len() == 0 {
        string_of(chars_of(msg).as_slice())
    } else {
        push_all(&mut out, chars_of(" — ").as_slice());
        push_all(&mut out, chars_of(msg).as_slice());
        string_of(out.as_slice())
    }
}

/// The OCR languages Omanote's interface speaks, in the order tried,
/// English first.
pub open spec fn ocr_wanted() -> Seq<Seq<char>> {
    seq!["eng"@, "ita"@, "deu"@, "fra"@, "spa"@, "por"@, "nld"@, "pol"@]
}

/// Whether `listing` (the output of `tesseract --list-langs`) has a line
/// that is `lang` once trimmed.
pub open spec fn lists_lang(listing: Seq<char>, lang: Seq<char>) -> bool {
    exists|i: int| 0 <= i < split_on(listing, '\n').len() && trim(#[trigger] split_on(listing, '\n')[i]) == lang
}

/// The wanted languages of `wanted` that `listing` has, in order.
pub open spec fn listed_langs(listing: Seq<char>, wanted: Seq<Seq<char>>) -> Seq<Seq<char>> {
    wanted.filter(|l: Seq<char>| lists_lang(listing, l))
}

/// The tesseract languages to read with: the value of `OMARCHY_OCR_LANGS`
/// when it is set and not blank, else the installed languages among the
/// ones Omanote speaks joined with `+`, else English.
pub open spec fn ocr_langs_spec(setting: Option<Seq<char>>, listing: Seq<char>) -> Seq<char> {
    match setting {
        Some(v) if trim(v).len() > 0 => v,
        _ => if listed_langs(listing, ocr_wanted()).len() == 0 {
            "eng"@
        } else {
            join(listed_langs(listing, ocr_wanted()), "+"@)
        },
    }
}

/// Whether one of `lines`, trimmed, is `lang`.
fn has_line(lines: &Vec<Vec<char>>, lang: &[char]) -> (r: bool)
    ensures
        r == exists|i: int| 0 <= i < lines@.len() && trim(#[trigger] lines@[i]@) == lang@,
{
    let mut i: usize = 0;
    while i < lines.len()
        invariant
            i <= lines@.len(),
            forall|j: int| 0 <= j < i ==> trim(#[trigger] lines@[j]@) != lang@,
        decreases lines@.len() - i,
    {
        let l = &lines[i];
        let (a, b) = trim_range(l.as_slice(), 0, l.len());
        assert(l@.subrange(0, l@.len() as int) =~= l@);
        let mut t: Vec<char> = Vec::new();
        let mut k = a;
        while k < b
            invariant
                a <= k <= b <= l@.len(),
                t@ =~= l@.subrange(a as int, k as int),
            decreases b - k,
        {
            t.push(l[k]);
            k = k + 1;
        }
        if eq_chars(t.as_slice(), lang) {
            return true;
        }
        i = i + 1;
    }
    false
}

/// The tesseract languages to read with, from the setting and the list of
/// installed languages.
pub fn ocr_langs(setting: Option<&str>, listing: &str) -> (r: String)
    ensures
        r@ == ocr_langs_spec(
            match setting {
                Some(v) => Some(v@),
                None => None,
            },
            listing@,
        ),
{
    if let Some(v) = setting {
        let vc = chars_of(v);
        let (a, b) = trim_range(vc.as_slice(), 0, vc.len());
        assert(vc@.subrange(0, vc@.len() as int) =~= v@);
        if a < b {
            return string_of(vc.as_slice());
        }
    }
    let lines = split_chars(chars_of(listing).as_slice(), '\n');
    let wanted: [&str; 8] = ["eng", "ita", "deu", "fra", "spa", "por", "nld", "pol"];
    let ghost w = ocr_wanted();
    assert(wanted@.map_values(|x: &str| x@) =~= w);
    let mut found: Vec<Vec<char>> = Vec::new();
    let mut i: usize = 0;
    while i < 8
        invariant
            i <= 8,
            lines@.len() == split_on(listing@, '\n').len(),
            forall|j: int| 0 <= j < lines@.len() ==> #[trigger] lines@[j]@ == split_on(listing@, '\n')[j],
            wanted@.map_values(|x: &str| x@) == w,
            w == ocr_wanted(),
            views(found@) == listed_langs(listing@, w.take(i as int)),
        decreases 8 - i,
    {
        let lang = chars_of(wanted[i]);
        assert(lang@ == w[i as int]);
        let hit = has_line(&lines, lang.as_slice());
        assert(hit == lists_lang(listing@, w[i as int])) by {
            if hit {
                let j = choose|j: int| 0 <= j < lines@.len() && trim(#[trigger] lines@[j]@) == lang@;
                assert(trim(split_on(listing@, '\n')[j]) == w[i as int]);
            }
            if lists_lang(listing@, w[i as int]) {
                let j = choose|j: int| 0 <= j < split_on(listing@, '\n').len() && trim(#[trigger] split_on(listing@, '\n')[j]) == w[i as int];
                assert(trim(lines@[j]@) == lang@);
            }
        }
        assert(w.take(i as int + 1).drop_last() =~= w.take(i as int));
        assert(w.take(i as int + 1).last() == w[i as int]);
        assert(listed_langs(listing@, w.take(i as int + 1)) == if hit {
            listed_langs(listing@, w.take(i as int)).push(w[i as int])
        } else {
            listed_langs(listing@, w.take(i as int))
        }) by {
            reveal(Seq::filter);
        }
        if hit {
            found.push(lang);
        }
        assert(views(found@) =~= listed_langs(listing@, w.take(i as int + 1)));
        i = i + 1;
    }
    assert(w.take(8) =~= w);
    if found.len() == 0 {
        string_of(chars_of("eng").as_slice())
    } else {
        let plus = chars_of("+");
        let joined = join_chars(found.as_slice(), plus.as_slice());
        string_of(joined.as_slice())
    }
}

/// Seconds between background syncs: the configured interval, at least 30.
pub fn sync_interval(configured: u64) -> (r: u64)
    ensures
        r == if configured < 30 { 30 } else { configured },
{
    if configured < 30 {
        30
    } else {
        configured
    }
}

/// Whether a sync can start: a server address is configured.
pub fn can_sync(server_url: &str) -> (r: bool)
    ensures
        r == (server_url@.len() > 0),
{
    chars_of(server_url).len() > 0
}

/// Whether to unlock the master keys with the saved master password before
/// a sync: end-to-end encryption is on and no key is active.
pub fn unlock_before_sync(e2ee: bool, active: &Option<String>) -> (r: bool)
    ensures
        r == (e2ee && active is None),
{
    e2ee && active.is_none()
}

/// Whether a sync changed the notes shown: it downloaded, deleted or met a
/// conflict.
pub fn sync_changed(report: &crate::sync::SyncReport) -> (r: bool)
    ensures
        r == (report.downloaded + report.deleted_local + report.conflicts > 0),
{
    report.downloaded > 0 || report.deleted_local > 0 || report.conflicts > 0
}

} // verus!
