use th420_display::jobs::{parse_device_status, JobMessage, JobResult, Jobs, Start};

fn finished(success: bool, stdout: &str, stderr: &str) -> JobMessage {
    JobMessage::Finished(JobResult {
        success,
        stdout: stdout.to_string(),
        stderr: stderr.to_string(),
    })
}

#[test]
fn daemon_is_restored_after_a_job() {
    let mut jobs = Jobs::new(true);
    assert_eq!(jobs.status, "Idle");
    assert_eq!(jobs.start_cli_job("Set brightness", true), Start::StopDaemonFirst);
    assert!(!jobs.daemon_running);
    assert_eq!(jobs.status, "Set brightness");
    let waiting = jobs.poll_cli_job(&[JobMessage::Started(7)]);
    assert!(!waiting.restore_daemon);
    assert_eq!(jobs.job.as_ref().unwrap().pid, Some(7));
    let done = jobs.poll_cli_job(&[finished(true, "", "")]);
    assert!(done.restore_daemon);
    assert!(done.report.is_none());
    assert!(jobs.daemon_running);
    assert!(jobs.job.is_none());
    assert_eq!(jobs.status, "Set brightness complete");
}

#[test]
fn one_job_runs_at_a_time() {
    let mut jobs = Jobs::new(false);
    assert_eq!(jobs.start_cli_job("First", false), Start::Begin);
    assert_eq!(jobs.start_cli_job("Second", true), Start::Busy);
    assert_eq!(jobs.job.as_ref().unwrap().label, "First");
    assert_eq!(jobs.status, "First");
}

#[test]
fn failures_are_reported() {
    let mut jobs = Jobs::new(false);
    jobs.start_cli_job("Upload", false);
    let done = jobs.poll_cli_job(&[JobMessage::Started(1), finished(false, "out", " no device \n")]);
    assert!(!done.restore_daemon);
    assert_eq!(jobs.last_error.as_deref(), Some("Upload failed: no device"));
    assert_eq!(jobs.status, "Upload failed");
    jobs.start_cli_job("Upload", false);
    jobs.poll_cli_job(&[finished(false, " out\n", " \n")]);
    assert_eq!(jobs.last_error.as_deref(), Some("Upload failed: out"));
}

#[test]
fn stopped_jobs_are_no_errors() {
    let mut jobs = Jobs::new(false);
    assert_eq!(jobs.stop_cli_job(), None);
    jobs.start_cli_job("Play live GIF", false);
    assert_eq!(jobs.stop_cli_job(), None);
    jobs.poll_cli_job(&[JobMessage::Started(42)]);
    assert_eq!(jobs.stop_cli_job(), Some(42));
    jobs.poll_cli_job(&[finished(false, "", "killed")]);
    assert_eq!(jobs.status, "Play live GIF stopped");
    assert!(jobs.last_error.is_none());
}

#[test]
fn status_reports_are_handed_over() {
    let mut jobs = Jobs::new(false);
    jobs.start_cli_job("Read device status", false);
    let done = jobs.poll_cli_job(&[finished(true, "pump_rpm=2320\n", "")]);
    assert_eq!(done.report.as_deref(), Some("pump_rpm=2320\n"));
    // Without a job there is nothing to take in.
    let none = jobs.poll_cli_job(&[finished(true, "x", "")]);
    assert!(none.report.is_none() && !none.restore_daemon);
}

#[test]
fn status_reports_are_read() {
    let s = parse_device_status("coolant_temp_c= 26.5 \npump_rpm=2320\r\nother=1\n");
    assert_eq!(s.coolant.as_deref(), Some("26.5"));
    assert!(s.mentions_pump);
    assert_eq!(s.pump_rpm, Some(2320));
    let s = parse_device_status("pump_rpm=1\npump_rpm=70000\n");
    assert!(s.mentions_pump);
    assert_eq!(s.pump_rpm, None);
    assert_eq!(s.coolant, None);
    let s = parse_device_status(" pump_rpm=1");
    assert!(!s.mentions_pump);
}
