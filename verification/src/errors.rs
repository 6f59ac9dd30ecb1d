use vstd::prelude::*;
use vstd::string::StringExecFns;

verus! {

/// The kinds of failure the engine reports.
#[derive(Debug, Clone, Copy, PartialEq, Eq, Structural)]
pub enum ErrorCodes {
    WALInitializationError,
    WALRecordEncodeError,
    WALRecordDecodeError,
    WALRecordWriteError,
    WALStateReadError,
    WALStateDecodeError,
    WALStateEncodeError,
    WALStateWriteError,
    WALSegmentIDParseError,
    WALSegmentFileOpenError,
    WALSegmentFileDeleteError,
    TableSegmentIDParseError,
    TableSegmentFileCreateError,
    TableSegmentFileOpenError,
    TableSegmentFileWriteError,
    TableRecordDecodeError,
    TableRecordEncodeError,
    TableCreationError,
    FileOpenError,
    FileMetadataError,
    FileSeekError,
    FileReadError,
    FileWriteError,
    FileDeleteError,
    TableNotFound,
    ValueNotFound,
    TableAlreadyExists,
    TableNameIsEmpty,
    TableNameTooLong,
    TableNameIsInvalid,
    KeyIsEmpty,
    KeySizeTooLarge,
    ValueSizeTooLarge,
    MemtableFlushAlreadyInProgress,
    TableListFailed,
    TableGetFailed,
    WALStateFileHandleNotFound,
    UnknownTableRecordHeaderFlag,
}

/// A failure: its kind and, where there is one, a message.
#[derive(Debug)]
pub struct Errors {
    pub error_code: ErrorCodes,
    pub message: Option<String>,
}

impl Errors {
    /// A failure of the given kind without a message.
    pub fn new(error_code: ErrorCodes) -> (e: Self)
        ensures
            e.error_code == error_code,
            e.message is None,
    {
        Errors { error_code, message: None }
    }

    /// The same failure carrying `message`.
    pub fn with_message(self, message: String) -> (e: Self)
        ensures
            e.error_code == self.error_code,
            e.message == Some(message),
    {
        Errors { error_code: self.error_code, message: Some(message) }
    }
}

/// The kind of failure inside a result, if it is one.
pub open spec fn failure<T>(r: Result<T, Errors>) -> Option<ErrorCodes> {
    match r {
        Ok(_) => None,
        Err(e) => Some(e.error_code),
    }
}

/// The words for a kind of failure.
pub open spec fn code_text(code: ErrorCodes) -> Seq<char> {
    match code {
        ErrorCodes::WALInitializationError => "WAL Initialization Error"@,
        ErrorCodes::WALRecordEncodeError => "WAL Record Encode Error"@,
        ErrorCodes::WALRecordDecodeError => "WAL Record Decode Error"@,
        ErrorCodes::WALRecordWriteError => "WAL Record Write Error"@,
        ErrorCodes::WALStateReadError => "WAL State Read Error"@,
        ErrorCodes::WALStateDecodeError => "WAL State Decode Error"@,
        ErrorCodes::WALStateEncodeError => "WAL State Encode Error"@,
        ErrorCodes::WALStateWriteError => "WAL State Write Error"@,
        ErrorCodes::WALSegmentIDParseError => "WAL Segment ID Parse Error"@,
        ErrorCodes::WALSegmentFileOpenError => "WAL Segment File Open Error"@,
        ErrorCodes::WALSegmentFileDeleteError => "WAL Segment File Delete Error"@,
        ErrorCodes::TableSegmentIDParseError => "Table Segment ID Parse Error"@,
        ErrorCodes::TableSegmentFileCreateError => "Table Segment File Create Error"@,
        ErrorCodes::TableSegmentFileOpenError => "Table Segment File Open Error"@,
        ErrorCodes::TableSegmentFileWriteError => "Table Segment File Write Error"@,
        ErrorCodes::TableRecordDecodeError => "Table Record Decode Error"@,
        ErrorCodes::TableRecordEncodeError => "Table Record Encode Error"@,
        ErrorCodes::TableCreationError => "Table Creation Error"@,
        ErrorCodes::FileOpenError => "File Open Error"@,
        ErrorCodes::FileMetadataError => "File Metadata Error"@,
        ErrorCodes::FileSeekError => "File Seek Error"@,
        ErrorCodes::FileReadError => "File Read Error"@,
        ErrorCodes::FileWriteError => "File Write Error"@,
        ErrorCodes::FileDeleteError => "File Delete Error"@,
        ErrorCodes::TableNotFound => "Table Not Found"@,
        ErrorCodes::ValueNotFound => "Value Not Found"@,
        ErrorCodes::TableAlreadyExists => "Table Already Exists"@,
        ErrorCodes::TableNameIsEmpty => "Table Name Is Empty"@,
        ErrorCodes::TableNameTooLong => "Table Name Too Long"@,
        ErrorCodes::TableNameIsInvalid => "Table Name Is Invalid"@,
        ErrorCodes::KeyIsEmpty => "Key Is Empty"@,
        ErrorCodes::KeySizeTooLarge => "Key Size Too Large"@,
        ErrorCodes::ValueSizeTooLarge => "Value Size Too Large"@,
        ErrorCodes::MemtableFlushAlreadyInProgress => "Memtable Flush Already In Progress"@,
        ErrorCodes::TableListFailed => "Table List Failed"@,
        ErrorCodes::TableGetFailed => "Table Get Failed"@,
        ErrorCodes::WALStateFileHandleNotFound => "WAL State File Handle Not Found"@,
        ErrorCodes::UnknownTableRecordHeaderFlag => "Unknown Table Record Header Flag"@,
    }
}

/// The status with which a failure is answered to a caller over HTTP: 404
/// for a table or a value that is not there, 409 for a table that is there
/// already, 400 for a name, a key or a value that is refused, and 500 for
/// every other failure.
pub open spec fn status_of(code: ErrorCodes) -> u16 {
    match code {
        ErrorCodes::TableNotFound | ErrorCodes::ValueNotFound => 404,
        ErrorCodes::TableAlreadyExists => 409,
        ErrorCodes::TableNameIsEmpty | ErrorCodes::TableNameTooLong
        | ErrorCodes::TableNameIsInvalid | ErrorCodes::KeyIsEmpty | ErrorCodes::KeySizeTooLarge
        | ErrorCodes::ValueSizeTooLarge => 400,
        _ => 500,
    }
}

impl ErrorCodes {
    /// The status with which the failure is answered to a caller over HTTP.
    pub fn status(&self) -> (status: u16)
        ensures
            status == status_of(*self),
    {
        match self {
            ErrorCodes::TableNotFound => 404,
            ErrorCodes::ValueNotFound => 404,
            ErrorCodes::TableAlreadyExists => 409,
            ErrorCodes::TableNameIsEmpty => 400,
            ErrorCodes::TableNameTooLong => 400,
            ErrorCodes::TableNameIsInvalid => 400,
            ErrorCodes::KeyIsEmpty => 400,
            ErrorCodes::KeySizeTooLarge => 400,
            ErrorCodes::ValueSizeTooLarge => 400,
            _ => 500,
        }
    }

    /// The words for the kind of failure.
    pub fn text(&self) -> (words: &'static str)
        ensures
            words@ == code_text(*self),
    {
        match self {
            ErrorCodes::WALInitializationError => "WAL Initialization Error",
            ErrorCodes::WALRecordEncodeError => "WAL Record Encode Error",
            ErrorCodes::WALRecordDecodeError => "WAL Record Decode Error",
            ErrorCodes::WALRecordWriteError => "WAL Record Write Error",
            ErrorCodes::WALStateReadError => "WAL State Read Error",
            ErrorCodes::WALStateDecodeError => "WAL State Decode Error",
            ErrorCodes::WALStateEncodeError => "WAL State Encode Error",
            ErrorCodes::WALStateWriteError => "WAL State Write Error",
            ErrorCodes::WALSegmentIDParseError => "WAL Segment ID Parse Error",
            ErrorCodes::WALSegmentFileOpenError => "WAL Segment File Open Error",
            ErrorCodes::WALSegmentFileDeleteError => "WAL Segment File Delete Error",
            ErrorCodes::TableSegmentIDParseError => "Table Segment ID Parse Error",
            ErrorCodes::TableSegmentFileCreateError => "Table Segment File Create Error",
            ErrorCodes::TableSegmentFileOpenError => "Table Segment File Open Error",
            ErrorCodes::TableSegmentFileWriteError => "Table Segment File Write Error",
            ErrorCodes::TableRecordDecodeError => "Table Record Decode Error",
            ErrorCodes::TableRecordEncodeError => "Table Record Encode Error",
            ErrorCodes::TableCreationError => "Table Creation Error",
            ErrorCodes::FileOpenError => "File Open Error",
            ErrorCodes::FileMetadataError => "File Metadata Error",
            ErrorCodes::FileSeekError => "File Seek Error",
            ErrorCodes::FileReadError => "File Read Error",
            ErrorCodes::FileWriteError => "File Write Error",
            ErrorCodes::FileDeleteError => "File Delete Error",
            ErrorCodes::TableNotFound => "Table Not Found",
            ErrorCodes::ValueNotFound => "Value Not Found",
            ErrorCodes::TableAlreadyExists => "Table Already Exists",
            ErrorCodes::TableNameIsEmpty => "Table Name Is Empty",
            ErrorCodes::TableNameTooLong => "Table Name Too Long",
            ErrorCodes::TableNameIsInvalid => "Table Name Is Invalid",
            ErrorCodes::KeyIsEmpty => "Key Is Empty",
            ErrorCodes::KeySizeTooLarge => "Key Size Too Large",
            ErrorCodes::ValueSizeTooLarge => "Value Size Too Large",
            ErrorCodes::MemtableFlushAlreadyInProgress => "Memtable Flush Already In Progress",
            ErrorCodes::TableListFailed => "Table List Failed",
            ErrorCodes::TableGetFailed => "Table Get Failed",
            ErrorCodes::WALStateFileHandleNotFound => "WAL State File Handle Not Found",
            ErrorCodes::UnknownTableRecordHeaderFlag => "Unknown Table Record Header Flag",
        }
    }
}

/// The words for a failure: those for its kind and, where it has a message,
/// a colon, a blank and the message.
pub open spec fn failure_text(e: Errors) -> Seq<char> {
    match e.message {
        Some(message) => code_text(e.error_code) + ": "@ + message@,
        None => code_text(e.error_code),
    }
}

impl Errors {
    /// The words for the failure.
    pub fn text(&self) -> (words: String)
        ensures
            words@ == failure_text(*self),
    {
        let mut words = self.error_code.text().to_owned();
        match &self.message {
            Some(message) => {
                words.append(": ");
                words.append(message.as_str());
            },
            None => {},
        }
        words
    }
}

} // verus!
