//! Backup planning and reporting: the destination path of a backup is the
//! original path with a timestamp suffix appended, and the outcomes of the
//! caller's copy attempts are folded into a report. Copying itself is file
//! I/O and stays with the caller; only reading the clock is trusted.
use vstd::prelude::*;
use vstd::slice::slice_to_vec;
use vstd::utf8::encode_utf8;

use crate::settings::clone_bytes;
use crate::text::lines_view;

verus! {

/// The suffix marker placed between the original name and the timestamp.
pub open spec fn spec_bak_marker() -> Seq<u8> {
    encode_utf8(".bak_"@)
}

/// The destination of a backup: the original path, the marker, the
/// timestamp.
pub open spec fn spec_backup_path(path: Seq<u8>, ts: Seq<u8>) -> Seq<u8> {
    path + spec_bak_marker() + ts
}

/// Relies on `chrono::Local::now` and its `format` with a sortable
/// second-resolution pattern of year, month, day, hour, minute and second;
/// the result depends on the wall clock, so nothing is promised of it.
/// `Local::now` panics when the system clock stands before the Unix
/// epoch; no argument of this function can exclude that clock state.
#[verifier::external_body]
pub fn current_timestamp() -> Vec<u8> {
    chrono::Local::now().format("%Y%m%d_%H%M%S").to_string().into_bytes()
}

/// The backup destination for one file.
pub fn backup_path_for(path: &Vec<u8>, ts: &Vec<u8>) -> (r: Vec<u8>)
    ensures
        r@ == spec_backup_path(path@, ts@),
{
    let mut r = clone_bytes(path);
    let mut marker: Vec<u8> = slice_to_vec(".bak_".as_bytes());
    r.append(&mut marker);
    let mut t = clone_bytes(ts);
    r.append(&mut t);
    proof {
        assert(r@ =~~= spec_backup_path(path@, ts@));
    }
    r
}

/// What the caller observed for one file: its name, and the error message
/// of the failed copy, or nothing when the copy succeeded.
#[derive(Debug)]
pub struct BackupOutcome {
    pub file_name: Vec<u8>,
    pub error: Option<Vec<u8>>,
}

impl View for BackupOutcome {
    type V = (Seq<u8>, Option<Seq<u8>>);

    open spec fn view(&self) -> (Seq<u8>, Option<Seq<u8>>) {
        (
            self.file_name@,
            match self.error {
                Option::Some(e) => Option::Some(e@),
                Option::None => Option::None,
            },
        )
    }
}

/// The view of a list of outcomes.
pub open spec fn outcomes_view(os: Seq<BackupOutcome>) -> Seq<(Seq<u8>, Option<Seq<u8>>)> {
    os.map_values(|o: BackupOutcome| o@)
}

/// The number of successful copies among the outcomes.
pub open spec fn count_ok(os: Seq<(Seq<u8>, Option<Seq<u8>>)>) -> int
    decreases os.len(),
{
    if os.len() == 0 {
        0
    } else {
        count_ok(os.drop_last()) + if os.last().1 is None {
            1int
        } else {
            0int
        }
    }
}

/// One formatted error entry: `name: message`.
pub open spec fn error_entry(name: Seq<u8>, msg: Seq<u8>) -> Seq<u8> {
    name + seq![58u8, 32u8] + msg
}

/// The formatted error entries of the failed copies, in order.
pub open spec fn error_entries(os: Seq<(Seq<u8>, Option<Seq<u8>>)>) -> Seq<Seq<u8>>
    decreases os.len(),
{
    if os.len() == 0 {
        Seq::empty()
    } else {
        let rest = error_entries(os.drop_last());
        match os.last().1 {
            Some(msg) => rest.push(error_entry(os.last().0, msg)),
            None => rest,
        }
    }
}

/// The report of a backup run over several files.
#[derive(Debug)]
pub struct BackupReport {
    pub success_count: usize,
    pub errors: Vec<Vec<u8>>,
}

/// Every outcome is counted exactly once: the successes and the error
/// entries together account for every attempted file.
pub proof fn lemma_backup_accounts_for_all(os: Seq<(Seq<u8>, Option<Seq<u8>>)>)
    ensures
        count_ok(os) + error_entries(os).len() == os.len(),
        0 <= count_ok(os),
    decreases os.len(),
{
    if os.len() > 0 {
        lemma_backup_accounts_for_all(os.drop_last());
    }
}

/// Folds the caller's copy outcomes into a report: the count of successes
/// and one `name: message` entry per failure, in order. No outcome is
/// dropped, and a failure never ends the run early.
pub fn backup_report(outcomes: &Vec<BackupOutcome>) -> (r: BackupReport)
    ensures
        r.success_count == count_ok(outcomes_view(outcomes@)),
        lines_view(r.errors@) == error_entries(outcomes_view(outcomes@)),
{
    let mut success_count: usize = 0;
    let mut errors: Vec<Vec<u8>> = Vec::new();
    let mut i: usize = 0;
    proof {
        assert(outcomes_view(outcomes@).take(0) =~~= Seq::<(Seq<u8>, Option<Seq<u8>>)>::empty());
        assert(lines_view(errors@) =~~= error_entries(outcomes_view(outcomes@).take(0)));
    }
    while i < outcomes.len()
        invariant
            0 <= i <= outcomes@.len(),
            success_count == count_ok(outcomes_view(outcomes@).take(i as int)),
            lines_view(errors@) == error_entries(outcomes_view(outcomes@).take(i as int)),
        decreases outcomes@.len() - i,
    {
        let ghost ov = outcomes_view(outcomes@);
        proof {
            lemma_backup_accounts_for_all(ov.take(i as int));
            assert(ov.take(i as int).len() == i);
            assert(ov.take(i + 1).drop_last() =~~= ov.take(i as int));
            assert(ov.take(i + 1).last() == ov[i as int]);
            assert(ov[i as int] == outcomes@[i as int]@);
        }
        let o = &outcomes[i];
        match &o.error {
            None => {
                success_count += 1;
            },
            Some(msg) => {
                let mut entry = clone_bytes(&o.file_name);
                entry.push(58);
                entry.push(32);
                let mut m = clone_bytes(msg);
                entry.append(&mut m);
                proof {
                    assert(entry@ =~~= error_entry(o@.0, o@.1->Some_0));
                }
                let ghost before = errors@;
                errors.push(entry);
                proof {
                    assert(lines_view(errors@) =~~= lines_view(before).push(entry@));
                }
            },
        }
        i += 1;
    }
    proof {
        assert(outcomes_view(outcomes@).take(outcomes@.len() as int) =~~= outcomes_view(
            outcomes@,
        ));
    }
    BackupReport { success_count, errors }
}

} // verus!
