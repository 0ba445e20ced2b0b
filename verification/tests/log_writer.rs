use std::sync::mpsc;

use gatefs::log::{
    append_command, file_failure, read_result, remove_command, removal_result, reset_command,
    writer_reply, writer_step, FileError, LogCommand, LogError, LogWriterHandle, WriterAction,
};

#[test]
fn writer_step_maps_commands_to_file_actions() {
    match writer_step(LogCommand::Reset { path: "/l/s.log".to_string() }) {
        WriterAction::TruncateFile { path } => assert_eq!(path, "/l/s.log"),
        other => panic!("unexpected action {other:?}"),
    }
    match writer_step(LogCommand::Append { path: "/l/s.log".to_string(), line: "one".to_string() }) {
        WriterAction::AppendToFile { path, text } => {
            assert_eq!(path, "/l/s.log");
            assert_eq!(text, "one\n");
        }
        other => panic!("unexpected action {other:?}"),
    }
    match writer_step(LogCommand::Remove { path: "/l/s.log".to_string() }) {
        WriterAction::DeleteFile { path } => assert_eq!(path, "/l/s.log"),
        other => panic!("unexpected action {other:?}"),
    }
    assert!(matches!(writer_step(LogCommand::Shutdown), WriterAction::Stop));
}

#[test]
fn appended_records_read_back_in_order() {
    // Apply the writer's actions for reset, append "one", append "two" to an in-memory log.
    let mut log = Some(String::from("stale\n"));
    let commands = vec![
        LogCommand::Reset { path: "p".to_string() },
        LogCommand::Append { path: "p".to_string(), line: "one".to_string() },
        LogCommand::Append { path: "p".to_string(), line: "two".to_string() },
    ];
    for command in commands {
        match writer_step(command) {
            WriterAction::TruncateFile { .. } => log = Some(String::new()),
            WriterAction::AppendToFile { text, .. } => {
                let mut content = log.unwrap_or_default();
                content.push_str(&text);
                log = Some(content);
            }
            WriterAction::DeleteFile { .. } => log = None,
            WriterAction::Stop => {}
        }
    }
    assert_eq!(log.unwrap_or_default(), "one\ntwo\n");
}

#[test]
fn missing_logs_count_as_removed_and_read_empty() {
    assert_eq!(removal_result(Ok(())), Ok(()));
    assert_eq!(removal_result(Err(FileError::NotFound("gone".to_string()))), Ok(()));
    assert_eq!(
        removal_result(Err(FileError::Other("denied".to_string()))),
        Err(LogError::Io("denied".to_string()))
    );
    assert_eq!(read_result(Ok("a\n".to_string())), Ok("a\n".to_string()));
    assert_eq!(read_result(Err(FileError::NotFound("gone".to_string()))), Ok(String::new()));
    assert_eq!(
        read_result(Err(FileError::Other("denied".to_string()))),
        Err(LogError::Io("denied".to_string()))
    );
    assert_eq!(
        file_failure(FileError::NotFound("no such file".to_string())),
        LogError::Io("no such file".to_string())
    );
}

#[test]
fn handle_reports_stopped_writer() {
    let (sender, receiver) = mpsc::channel();
    drop(receiver);
    let handle = LogWriterHandle::new(sender);
    assert_eq!(handle.reset("/tmp/x.log").0, Err(LogError::Stopped));
    assert_eq!(handle.append("/tmp/x.log", "line").0, Err(LogError::Stopped));
    assert_eq!(handle.clone().remove("/tmp/x.log").0, Err(LogError::Stopped));
    assert_eq!(handle.shutdown().0, Err(LogError::Stopped));
    assert_eq!(LogError::Stopped.message(), "log writer stopped");
    assert_eq!(LogError::Io("disk full".to_string()).message(), "disk full");
}


#[test]
fn handle_commands_carry_their_arguments() {
    match reset_command("/l/s.log") {
        LogCommand::Reset { path } => assert_eq!(path, "/l/s.log"),
        other => panic!("unexpected command {other:?}"),
    }
    match append_command("/l/s.log", "one") {
        LogCommand::Append { path, line } => {
            assert_eq!(path, "/l/s.log");
            assert_eq!(line, "one");
        }
        other => panic!("unexpected command {other:?}"),
    }
    match remove_command("/l/s.log") {
        LogCommand::Remove { path } => assert_eq!(path, "/l/s.log"),
        other => panic!("unexpected command {other:?}"),
    }
}

#[test]
fn writer_reply_hands_on_the_writer_outcome() {
    assert_eq!(writer_reply(false, None), Err(LogError::Stopped));
    assert_eq!(writer_reply(false, Some(Ok(()))), Err(LogError::Stopped));
    assert_eq!(writer_reply(true, None), Err(LogError::Stopped));
    assert_eq!(writer_reply(true, Some(Ok(()))), Ok(()));
    assert_eq!(
        writer_reply(true, Some(Err(LogError::Io("disk full".to_string())))),
        Err(LogError::Io("disk full".to_string()))
    );
}
