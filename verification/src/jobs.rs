use vstd::prelude::*;
use vstd::string::StringExecFns;
use crate::nodes::Timestamp;

verus! {

/// Where a background job stands.
#[derive(Clone, Copy, Debug, PartialEq, Eq, Structural)]
pub enum JobStatus {
    Pending,
    Running,
    Completed,
    Failed,
}

/// A stored background job.
#[derive(Clone, Debug, PartialEq, Eq)]
pub struct Model {
    pub id: i32,
    pub job_type: String,
    pub status: JobStatus,
    pub payload: String,
    pub error: Option<String>,
    pub created: Timestamp,
    pub modified: Timestamp,
}

/// A job as it is first stored: every field but the id, which the store assigns.
#[derive(Debug)]
pub struct NewJob {
    pub job_type: String,
    pub status: JobStatus,
    pub payload: String,
    pub error: Option<String>,
    pub created: Timestamp,
    pub modified: Timestamp,
}

/// Why a job could not be updated.
#[derive(Clone, Copy, Debug, PartialEq, Eq, Structural)]
pub enum JobError {
    NotFound { job_id: i32 },
}

/// The decimal digits of `n`.
pub open spec fn digits(n: nat) -> Seq<char>
    decreases n,
{
    if n < 10 {
        seq![(48 + n) as char]
    } else {
        digits(n / 10).push((48 + n % 10) as char)
    }
}

/// The number that a text of decimal digits stands for.
pub open spec fn digits_value(s: Seq<char>) -> int
    decreases s.len(),
{
    if s.len() == 0 {
        0
    } else {
        digits_value(s.drop_last()) * 10 + (s.last() as int - 48)
    }
}

/// The decimal text of `n` is made of digits only, reads back as `n`, and starts
/// with `0` only when it is `0` itself.
pub proof fn law_digits(n: nat)
    ensures
        digits(n).len() >= 1,
        forall|i: int| 0 <= i < digits(n).len() ==> '0' <= #[trigger] digits(n)[i] <= '9',
        digits_value(digits(n)) == n,
        digits(n)[0] == '0' ==> n == 0,
    decreases n,
{
    let r = n % 10;
    assert(((48 + r) as char) as int == 48 + r);
    if n >= 10 {
        law_digits(n / 10);
        let d = digits(n);
        assert(d.drop_last() =~= digits(n / 10));
        assert(d.last() == (48 + r) as char);
        assert(d[0] == digits(n / 10)[0]);
        assert(n == (n / 10) * 10 + n % 10) by (nonlinear_arith);
        assert(digits_value(d) == digits_value(d.drop_last()) * 10 + (d.last() as int - 48));
        assert(digits_value(d.drop_last()) == n / 10);
        assert(digits_value(d) == (n / 10) * 10 + r);
    } else {
        let d = digits(n);
        assert(d.drop_last() =~= Seq::<char>::empty());
        assert(r == n);
        assert(d.last() == (48 + r) as char);
        assert(digits_value(d) == digits_value(d.drop_last()) * 10 + (d.last() as int - 48));
    }
}

/// `n` written in decimal, with a leading `-` when it is negative.
pub open spec fn decimal(n: int) -> Seq<char> {
    if n < 0 {
        seq!['-'] + digits((-n) as nat)
    } else {
        digits(n as nat)
    }
}

/// The one-character text of the digit `d`.
fn digit_str(d: u32) -> (s: &'static str)
    requires
        d < 10,
    ensures
        s@ == seq![(48 + d) as char],
{
    proof {
        reveal_strlit("0");
        reveal_strlit("1");
        reveal_strlit("2");
        reveal_strlit("3");
        reveal_strlit("4");
        reveal_strlit("5");
        reveal_strlit("6");
        reveal_strlit("7");
        reveal_strlit("8");
        reveal_strlit("9");
    }
    match d {
        0 => "0",
        1 => "1",
        2 => "2",
        3 => "3",
        4 => "4",
        5 => "5",
        6 => "6",
        7 => "7",
        8 => "8",
        _ => "9",
    }
}

/// The decimal digits of `n`.
fn digits_string(n: u32) -> (s: String)
    ensures
        s@ == digits(n as nat),
    decreases n,
{
    if n < 10 {
        String::from_str(digit_str(n))
    } else {
        let mut s = digits_string(n / 10);
        s.append(digit_str(n % 10));
        assert(s@ =~= digits((n / 10) as nat).push((48 + n % 10) as char));
        s
    }
}

/// `n` written in decimal, as `i32::to_string` writes it.
fn decimal_string(n: i32) -> (s: String)
    ensures
        s@ == decimal(n as int),
{
    if n < 0 {
        let magnitude = (0i64 - (n as i64)) as u32;
        let mut s = String::from_str("-");
        proof {
            reveal_strlit("-");
        }
        let d = digits_string(magnitude);
        s.append(d.as_str());
        s
    } else {
        digits_string(n as u32)
    }
}

/// The decimal text of `n` is `-` followed by the digits of its magnitude when it
/// is negative, and those digits alone otherwise; they read back as the magnitude.
pub proof fn law_decimal(n: int)
    ensures
        n < 0 ==> decimal(n)[0] == '-' && decimal(n).subrange(1, decimal(n).len() as int)
            == digits((-n) as nat) && digits_value(digits((-n) as nat)) == -n,
        n >= 0 ==> decimal(n) == digits(n as nat) && digits_value(decimal(n)) == n,
        n >= 0 ==> forall|i: int| 0 <= i < decimal(n).len() ==> #[trigger] decimal(n)[i] != '-',
{
    if n < 0 {
        law_digits((-n) as nat);
        assert(decimal(n).subrange(1, decimal(n).len() as int) =~= digits((-n) as nat));
    } else {
        law_digits(n as nat);
    }
}

/// The message of a failed status update for a job that does not exist.
pub open spec fn not_found_message(job_id: i32) -> Seq<char> {
    "Can't find job with id '"@ + decimal(job_id as int) + "'"@
}

impl JobError {
    /// The error's text, as the store reports it.
    pub fn message(&self) -> (m: String)
        ensures
            match self {
                JobError::NotFound { job_id } => {
                    &&& m@ == not_found_message(*job_id)
                    &&& m@ == "Can't find job with id '"@ + decimal(*job_id as int) + "'"@
                },
            },
    {
        match self {
            JobError::NotFound { job_id } => {
                let mut m = String::from_str("Can't find job with id '");
                let digits = decimal_string(*job_id);
                m.append(digits.as_str());
                m.append("'");
                m
            },
        }
    }
}

/// The record a newly enqueued job is stored with: pending, with no error.
pub fn pending_job(job_type: &str, payload: String, created: Timestamp, modified: Timestamp) -> (job:
    NewJob)
    ensures
        job.job_type@ == job_type@,
        job.status == JobStatus::Pending,
        job.payload == payload,
        job.error is None,
        job.created == created,
        job.modified == modified,
{
    NewJob {
        job_type: job_type.to_owned(),
        status: JobStatus::Pending,
        payload,
        error: None,
        created,
        modified,
    }
}

/// The type of the background job that indexes a path.
pub open spec fn index_job_type() -> Seq<char> {
    "index_path"@
}

/// The record of the background job that indexes `path`, as opening a library that
/// is not stored yet enqueues it: a pending `index_path` job with the path as its
/// payload and no error.
pub fn index_job(path: String, created: Timestamp, modified: Timestamp) -> (job: NewJob)
    ensures
        job.job_type@ == index_job_type(),
        job.job_type@ == "index_path"@,
        job.status == JobStatus::Pending,
        job.payload == path,
        job.error is None,
        job.created == created,
        job.modified == modified,
{
    pending_job("index_path", path, created, modified)
}

/// Moves a stored job to `status` at time `modified`, recording `error`;
/// a job that was not found cannot be updated.
pub fn status_update(
    found: Option<Model>,
    job_id: i32,
    status: JobStatus,
    error: Option<String>,
    modified: Timestamp,
) -> (updated: Result<Model, JobError>)
    ensures
        found is None ==> updated == Err::<Model, JobError>(JobError::NotFound { job_id }),
        found matches Some(job) ==> (updated matches Ok(u) && u.id == job.id && u.job_type
            == job.job_type && u.payload == job.payload && u.created == job.created && u.status
            == status && u.error == error && u.modified == modified),
{
    match found {
        None => Err(JobError::NotFound { job_id }),
        Some(job) => Ok(Model { status, error, modified, ..job }),
    }
}

/// The status a background job ends in, and its error text: completed after a
/// run that succeeded, failed with the run's error otherwise.
pub fn finished_status(outcome: Result<(), String>) -> (end: (JobStatus, Option<String>))
    ensures
        outcome is Ok ==> end == (JobStatus::Completed, None::<String>),
        outcome matches Err(e) ==> end == (JobStatus::Failed, Some(e)),
{
    match outcome {
        Ok(()) => (JobStatus::Completed, None),
        Err(e) => (JobStatus::Failed, Some(e)),
    }
}

} // verus!
