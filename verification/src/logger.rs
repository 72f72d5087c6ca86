//! The node logger: identity fields plus record construction for one call.
//!
//! A logger carries the node identity and workspace strings stamped on every
//! record. `log` builds the serialized single-line record for one call, with
//! the timestamp drawn from the clock; delivering the line — console stream
//! by severity, then the rotating file sink under its lock — is I/O and is
//! performed by the thin shell around the crate, which must never let a
//! delivery failure reach the logging caller.

use crate::record::{
    compose_line, line_text, now_rfc3339_millis, payload_single_line, single_line, spec_record,
    Payload,
};
use vstd::prelude::*;

verus! {

/// The identity a structured-log emitter stamps on every record.
#[derive(Clone)]
pub struct NodeLogger {
    pub node_id: String,
    pub workspace: String,
}

impl NodeLogger {
    /// A logger for the given node identity and workspace.
    pub fn with_ids(node_id: String, workspace: String) -> (l: NodeLogger)
        ensures
            l.node_id@ == node_id@,
            l.workspace@ == workspace@,
    {
        NodeLogger { node_id, workspace }
    }

    /// The serialized record of one log call: the six fixed fields — the
    /// clock's timestamp, the level, the constant component tag, the event,
    /// the node identity, the workspace — with the caller payload merged on
    /// top, as one line of JSON text.
    pub fn log(&self, level: &str, event: &str, payload: Payload) -> (line: String)
        ensures
            exists|ts: Seq<char>|
                line@ == line_text(
                    spec_record(ts, level@, event@, self.node_id@, self.workspace@, payload),
                ) && ts.len() >= 24 && ts[ts.len() - 1] == 'Z' && ts[ts.len() - 5] == '.'
                    && ts[ts.len() - 14] == 'T',
            payload_single_line(payload) ==> single_line(line@),
    {
        let ts = now_rfc3339_millis();
        let line = compose_line(
            ts.as_str(),
            level,
            event,
            self.node_id.as_str(),
            self.workspace.as_str(),
            payload,
        );
        proof {
            assert(line@ == line_text(
                spec_record(ts@, level@, event@, self.node_id@, self.workspace@, payload),
            ) && ts@.len() >= 24 && ts@[ts@.len() - 1] == 'Z' && ts@[ts@.len() - 5] == '.'
                && ts@[ts@.len() - 14] == 'T');
        }
        line
    }

    /// `log` at fixed severity INFO.
    pub fn info(&self, event: &str, payload: Payload) -> (line: String)
        ensures
            exists|ts: Seq<char>|
                line@ == line_text(
                    spec_record(ts, "INFO"@, event@, self.node_id@, self.workspace@, payload),
                ) && ts.len() >= 24 && ts[ts.len() - 1] == 'Z' && ts[ts.len() - 5] == '.'
                    && ts[ts.len() - 14] == 'T',
            payload_single_line(payload) ==> single_line(line@),
    {
        self.log("INFO", event, payload)
    }

    /// `log` at fixed severity WARN.
    pub fn warn(&self, event: &str, payload: Payload) -> (line: String)
        ensures
            exists|ts: Seq<char>|
                line@ == line_text(
                    spec_record(ts, "WARN"@, event@, self.node_id@, self.workspace@, payload),
                ) && ts.len() >= 24 && ts[ts.len() - 1] == 'Z' && ts[ts.len() - 5] == '.'
                    && ts[ts.len() - 14] == 'T',
            payload_single_line(payload) ==> single_line(line@),
    {
        self.log("WARN", event, payload)
    }

    /// `log` at fixed severity ERROR.
    pub fn error(&self, event: &str, payload: Payload) -> (line: String)
        ensures
            exists|ts: Seq<char>|
                line@ == line_text(
                    spec_record(ts, "ERROR"@, event@, self.node_id@, self.workspace@, payload),
                ) && ts.len() >= 24 && ts[ts.len() - 1] == 'Z' && ts[ts.len() - 5] == '.'
                    && ts[ts.len() - 14] == 'T',
            payload_single_line(payload) ==> single_line(line@),
    {
        self.log("ERROR", event, payload)
    }
}

} // verus!
