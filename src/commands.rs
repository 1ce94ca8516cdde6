use vstd::prelude::*;

use crate::db::Store;
use crate::template::Template;

verus! {

/// Store maintenance requests.
pub enum ListCommands {
    /// Remove all templates.
    Clear,
    /// Clear a template's `ignored` flag.
    Enable { name: String },
    /// Set a template's `ignored` flag.
    Disable { name: String },
}

/// What a maintenance request did; `Cleared` and `Toggled` leave a store to be saved.
#[derive(Debug, PartialEq, Eq)]
pub enum ListOutcome {
    AlreadyEmpty,
    Cleared(usize),
    Toggled,
    NotFound,
}

/// Carries out a maintenance request on `db`.
pub fn list_command(db: &mut Store, cmd: &ListCommands) -> (r: ListOutcome)
    requires
        old(db).wf(),
    ensures
        final(db).wf(),
        final(db).file() == old(db).file(),
        match cmd {
            ListCommands::Clear => if old(db).entries().len() == 0 {
                r == ListOutcome::AlreadyEmpty && final(db)@ == old(db)@
            } else {
                r == ListOutcome::Cleared(old(db).entries().len() as usize)
                    && final(db)@ == Map::<Seq<char>, Template>::empty()
            },
            ListCommands::Enable { name } => if old(db)@.contains_key(name@) {
                r == ListOutcome::Toggled && final(db)@ == old(db)@.insert(
                    name@,
                    old(db)@[name@].with_ignored(false),
                )
            } else {
                r == ListOutcome::NotFound && final(db)@ == old(db)@
            },
            ListCommands::Disable { name } => if old(db)@.contains_key(name@) {
                r == ListOutcome::Toggled && final(db)@ == old(db)@.insert(
                    name@,
                    old(db)@[name@].with_ignored(true),
                )
            } else {
                r == ListOutcome::NotFound && final(db)@ == old(db)@
            },
        },
{
    match cmd {
        ListCommands::Clear => {
            let n = db.list().len();
            if n == 0 {
                ListOutcome::AlreadyEmpty
            } else {
                db.clear();
                ListOutcome::Cleared(n)
            }
        },
        ListCommands::Enable { name } => match db.set_ignored(name.as_str(), false) {
            Ok(true) => ListOutcome::Toggled,
            _ => ListOutcome::NotFound,
        },
        ListCommands::Disable { name } => match db.set_ignored(name.as_str(), true) {
            Ok(true) => ListOutcome::Toggled,
            _ => ListOutcome::NotFound,
        },
    }
}

} // verus!
