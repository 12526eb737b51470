//! The window's state and what its buttons decide; the window itself draws it and
//! does the file work.
use vstd::prelude::*;
use crate::log::{appends_lines, lemma_appends_chain, log_line};
use crate::pipeline::{RunMode, RunReport};
use crate::steam::{chars_of, string_of, trim, trim_bounds};
use crate::text::{opt_view, owned};

verus! {

/// What the window shows and remembers.
pub struct GuiApp {
    pub game_root: String,
    pub allow_compact_names: bool,
    pub log: String,
    pub last_log_path: Option<String>,
    pub last_backup_path: Option<String>,
    pub status: String,
    pub status_ok: Option<bool>,
}

/// A patch run the window asks for: the game folder (trimmed), the mode, and whether
/// compact names are allowed.
pub struct RunRequest {
    pub game_root: String,
    pub mode: RunMode,
    pub allow_compact_names: bool,
}

/// `s` without white space at either end.
pub fn trimmed(s: &str) -> (r: String)
    ensures
        r@ == trim(s@),
{
    let chars = chars_of(s);
    let (a, b) = trim_bounds(chars.as_slice());
    string_of(vstd::slice::slice_subrange(chars.as_slice(), a, b))
}

impl GuiApp {
    /// The starting state: compact names allowed, the game folder set to `detected`
    /// when the game was found, and a log line for each step.
    pub fn new(detected: Option<String>) -> (app: Self)
        ensures
            app.allow_compact_names,
            app.last_log_path is None,
            app.last_backup_path is None,
            match detected {
                Some(p) => {
                    &&& app.game_root@ == p@
                    &&& app.status@ == "Gra wykryta automatycznie."@
                    &&& app.status_ok == Some(true)
                    &&& appends_lines(
                        Seq::empty(),
                        app.log@,
                        seq![
                            "Start aplikacji. Gotowy fix dla polskiej wersji gry."@,
                            "Automatycznie wykryto grę: "@ + p@,
                        ],
                    )
                },
                None => {
                    &&& app.game_root@ == Seq::<char>::empty()
                    &&& app.status@ == "Nie wykryto gry automatycznie. Wskaż folder ręcznie."@
                    &&& app.status_ok is None
                    &&& appends_lines(
                        Seq::empty(),
                        app.log@,
                        seq![
                            "Start aplikacji. Gotowy fix dla polskiej wersji gry."@,
                            "Nie udało się automatycznie wykryć lokalizacji gry."@,
                        ],
                    )
                },
            },
    {
        let mut app = GuiApp {
            game_root: String::new(),
            allow_compact_names: true,
            log: String::new(),
            last_log_path: None,
            last_backup_path: None,
            status: String::new(),
            status_ok: None,
        };
        app.append_gui("Start aplikacji. Gotowy fix dla polskiej wersji gry.");
        let ghost l1 = app.log@;
        match detected {
            Some(p) => {
                app.game_root = p;
                app.status = owned("Gra wykryta automatycznie.");
                app.status_ok = Some(true);
                let mut m = owned("Automatycznie wykryto grę: ");
                m.append(app.game_root.as_str());
                app.append_gui(m.as_str());
                proof {
                    lemma_appends_chain(
                        Seq::empty(),
                        l1,
                        app.log@,
                        seq!["Start aplikacji. Gotowy fix dla polskiej wersji gry."@],
                        seq![m@],
                    );
                    assert(seq!["Start aplikacji. Gotowy fix dla polskiej wersji gry."@] + seq![m@]
                        =~= seq![
                        "Start aplikacji. Gotowy fix dla polskiej wersji gry."@,
                        "Automatycznie wykryto grę: "@ + app.game_root@,
                    ]);
                }
            },
            None => {
                app.status = owned("Nie wykryto gry automatycznie. Wskaż folder ręcznie.");
                app.status_ok = None;
                app.append_gui("Nie udało się automatycznie wykryć lokalizacji gry.");
                proof {
                    lemma_appends_chain(
                        Seq::empty(),
                        l1,
                        app.log@,
                        seq!["Start aplikacji. Gotowy fix dla polskiej wersji gry."@],
                        seq!["Nie udało się automatycznie wykryć lokalizacji gry."@],
                    );
                    assert(seq!["Start aplikacji. Gotowy fix dla polskiej wersji gry."@]
                        + seq!["Nie udało się automatycznie wykryć lokalizacji gry."@] =~= seq![
                        "Start aplikacji. Gotowy fix dla polskiej wersji gry."@,
                        "Nie udało się automatycznie wykryć lokalizacji gry."@,
                    ]);
                }
            },
        }
        app
    }

    /// Appends a stamped line to the window's log.
    pub fn append_gui(&mut self, text: &str)
        ensures
            appends_lines(old(self).log@, final(self).log@, seq![text@]),
            final(self).game_root == old(self).game_root,
            final(self).allow_compact_names == old(self).allow_compact_names,
            final(self).last_log_path == old(self).last_log_path,
            final(self).last_backup_path == old(self).last_backup_path,
            final(self).status == old(self).status,
            final(self).status_ok == old(self).status_ok,
    {
        log_line(&mut self.log, text);
    }

    /// Takes a run's outcome: its log is appended, its message and success become the
    /// status, and its log and backup paths are remembered.
    pub fn apply_report(&mut self, report: RunReport)
        ensures
            final(self).log@ == old(self).log@ + report.log@,
            final(self).status@ == report.message@,
            final(self).status_ok == Some(report.ok),
            opt_view(final(self).last_log_path) == opt_view(report.log_path),
            opt_view(final(self).last_backup_path) == opt_view(report.backup_path),
            final(self).game_root == old(self).game_root,
            final(self).allow_compact_names == old(self).allow_compact_names,
    {
        self.log.append(report.log.as_str());
        self.status = report.message;
        self.status_ok = Some(report.ok);
        self.last_log_path = report.log_path;
        self.last_backup_path = report.backup_path;
    }

    /// The patch run that the check and patch buttons start: the trimmed game folder,
    /// the mode, and the compact-names choice.
    pub fn run_checked(&self, mode: RunMode) -> (req: RunRequest)
        ensures
            req.game_root@ == trim(self.game_root@),
            req.mode == mode,
            req.allow_compact_names == self.allow_compact_names,
    {
        RunRequest {
            game_root: trimmed(self.game_root.as_str()),
            mode,
            allow_compact_names: self.allow_compact_names,
        }
    }

    /// The game folder that the restore button restores in: the trimmed game folder.
    pub fn run_restore(&self) -> (root: String)
        ensures
            root@ == trim(self.game_root@),
    {
        trimmed(self.game_root.as_str())
    }

    /// The detect button: takes the folder found, or says that none was.
    pub fn detect_clicked(&mut self, detected: Option<String>)
        ensures
            final(self).allow_compact_names == old(self).allow_compact_names,
            final(self).last_log_path == old(self).last_log_path,
            final(self).last_backup_path == old(self).last_backup_path,
            match detected {
                Some(p) => {
                    &&& final(self).game_root@ == p@
                    &&& final(self).status@ == "Gra wykryta automatycznie."@
                    &&& final(self).status_ok == Some(true)
                    &&& appends_lines(
                        old(self).log@,
                        final(self).log@,
                        seq!["Automatycznie wykryto grę: "@ + p@],
                    )
                },
                None => {
                    &&& final(self).game_root == old(self).game_root
                    &&& final(self).status@ == "Nie udało się wykryć gry automatycznie."@
                    &&& final(self).status_ok == Some(false)
                    &&& appends_lines(
                        old(self).log@,
                        final(self).log@,
                        seq!["Automatyczne wykrywanie nie znalazło gry."@],
                    )
                },
            },
    {
        match detected {
            Some(p) => {
                self.game_root = p;
                self.status = owned("Gra wykryta automatycznie.");
                self.status_ok = Some(true);
                let mut m = owned("Automatycznie wykryto grę: ");
                m.append(self.game_root.as_str());
                self.append_gui(m.as_str());
            },
            None => {
                self.status = owned("Nie udało się wykryć gry automatycznie.");
                self.status_ok = Some(false);
                self.append_gui("Automatyczne wykrywanie nie znalazło gry.");
            },
        }
    }

    /// The pick-folder button, when a folder was picked: it becomes the game folder.
    pub fn folder_picked(&mut self, folder: String)
        ensures
            final(self).game_root@ == folder@,
            final(self).status@ == "Folder ustawiony ręcznie."@,
            final(self).status_ok is None,
            appends_lines(
                old(self).log@,
                final(self).log@,
                seq!["Wybrano folder ręcznie: "@ + folder@],
            ),
            final(self).allow_compact_names == old(self).allow_compact_names,
            final(self).last_log_path == old(self).last_log_path,
            final(self).last_backup_path == old(self).last_backup_path,
    {
        self.game_root = folder;
        self.status = owned("Folder ustawiony ręcznie.");
        self.status_ok = None;
        let mut m = owned("Wybrano folder ręcznie: ");
        m.append(self.game_root.as_str());
        self.append_gui(m.as_str());
    }

    /// The open-log button: the last log's path to open, or, when there is none, a
    /// log line saying so.
    pub fn open_log_clicked(&mut self) -> (path: Option<String>)
        ensures
            opt_view(path) == opt_view(old(self).last_log_path),
            path is Some ==> final(self).log == old(self).log,
            path is None ==> appends_lines(
                old(self).log@,
                final(self).log@,
                seq!["Brak logu do otwarcia."@],
            ),
            final(self).game_root == old(self).game_root,
            final(self).allow_compact_names == old(self).allow_compact_names,
            final(self).last_log_path == old(self).last_log_path,
            final(self).last_backup_path == old(self).last_backup_path,
            final(self).status == old(self).status,
            final(self).status_ok == old(self).status_ok,
    {
        match &self.last_log_path {
            Some(p) => Some(owned(p.as_str())),
            None => {
                self.append_gui("Brak logu do otwarcia.");
                None
            },
        }
    }
}

} // verus!
