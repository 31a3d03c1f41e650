use photos::jobs::{finished_status, index_job, pending_job, status_update, JobError, JobStatus, Model};
use photos::nodes::Timestamp;

fn at(secs: i64) -> Timestamp {
    Timestamp { secs, nanos: 250 }
}

fn stored(id: i32) -> Model {
    let new = pending_job("background_function", "{\"value\":120}".to_string(), at(10), at(11));
    Model {
        id,
        job_type: new.job_type,
        status: new.status,
        payload: new.payload,
        error: new.error,
        created: new.created,
        modified: new.modified,
    }
}

#[test]
fn test_enqueue() {
    let job = pending_job("background_function", "{\"value\":120}".to_string(), at(1), at(2));
    assert_eq!(job.status, JobStatus::Pending);
    assert_eq!(job.job_type, "background_function");
    assert_eq!(job.payload, "{\"value\":120}");
    assert_eq!(job.error, None);
    assert_eq!(job.created, at(1));
    assert_eq!(job.modified, at(2));
}

#[test]
fn test_update_status() {
    let job = stored(1);
    let job = status_update(Some(job), 1, JobStatus::Running, None, at(20)).unwrap();
    assert_eq!(job.status, JobStatus::Running);
    assert_eq!(job.id, 1);
    assert_eq!(job.job_type, "background_function");
    assert_eq!(job.created, at(10));
    assert_eq!(job.modified, at(20));
}

#[test]
fn test_update_status_not_found() {
    let job = status_update(None, 99i32, JobStatus::Running, None, at(5));
    assert!(job.is_err());
    let err = job.unwrap_err();
    assert_eq!(err, JobError::NotFound { job_id: 99 });
    assert_eq!(err.message(), "Can't find job with id '99'");
}

#[test]
fn not_found_message_of_negative_and_extreme_ids() {
    assert_eq!(JobError::NotFound { job_id: -7 }.message(), "Can't find job with id '-7'");
    assert_eq!(JobError::NotFound { job_id: 0 }.message(), "Can't find job with id '0'");
    assert_eq!(
        JobError::NotFound { job_id: i32::MIN }.message(),
        "Can't find job with id '-2147483648'"
    );
}

#[test]
fn update_records_the_error() {
    let job = status_update(
        Some(stored(4)),
        4,
        JobStatus::Failed,
        Some("disk gone".to_string()),
        at(30),
    )
    .unwrap();
    assert_eq!(job.status, JobStatus::Failed);
    assert_eq!(job.error, Some("disk gone".to_string()));
    assert_eq!(job.payload, "{\"value\":120}");
}

#[test]
fn test_background_job() {
    assert_eq!(finished_status(Ok(())), (JobStatus::Completed, None));
    assert_eq!(
        finished_status(Err("boom".to_string())),
        (JobStatus::Failed, Some("boom".to_string()))
    );
}

#[test]
fn opening_an_unindexed_library_enqueues_an_index_job() {
    let job = index_job("/home/me/Pictures".to_string(), at(40), at(41));
    assert_eq!(job.job_type, "index_path");
    assert_eq!(job.payload, "/home/me/Pictures");
    assert_eq!(job.status, JobStatus::Pending);
    assert_eq!(job.error, None);
    assert_eq!(job.created, at(40));
    assert_eq!(job.modified, at(41));
}

#[test]
fn stored_jobs_copy_and_compare() {
    let job = stored(9);
    let copy = job.clone();
    assert_eq!(copy, job);
    assert_ne!(copy, stored(10));
}
