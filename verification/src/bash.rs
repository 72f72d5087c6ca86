//! The Bash tool: its wire description and workspace-relative path
//! resolution. Running the command itself is a subprocess call and stays in
//! the thin shell around the crate; the logic here decides where the command
//! runs and what the tool declares about itself.

use vstd::prelude::*;
use vstd::string::*;

verus! {

/// An absolute path starts at the root.
pub open spec fn is_absolute(p: Seq<char>) -> bool {
    p.len() > 0 && p[0] == '/'
}

/// What a tool declares about itself: its name, what it does, and the JSON
/// schema text of its arguments.
pub struct ToolDefinition {
    pub name: String,
    pub description: String,
    pub input_schema: String,
}

/// The shell-command tool, bound to one workspace directory.
pub struct BashTool {
    pub workspace: String,
}

impl BashTool {
    /// A tool bound to the given workspace.
    pub fn new(workspace: String) -> (t: BashTool)
        ensures
            t.workspace@ == workspace@,
    {
        BashTool { workspace }
    }

    /// Absolute paths stand as given; relative ones are joined under the
    /// workspace with a separator.
    pub fn resolve_path(&self, path: &str) -> (p: String)
        ensures
            p@ == if is_absolute(path@) {
                path@
            } else {
                self.workspace@ + seq!['/'] + path@
            },
    {
        let abs = path.unicode_len() > 0 && path.get_char(0) == '/';
        if abs {
            path.to_owned()
        } else {
            let mut p = self.workspace.as_str().to_owned();
            p.append("/");
            p.append(path);
            proof {
                reveal_strlit("/");
                assert(p@ =~= self.workspace@ + seq!['/'] + path@);
            }
            p
        }
    }

    /// The directory a command runs in: the caller's `workdir` resolved
    /// against the workspace, or the workspace itself when absent.
    pub fn effective_workdir(&self, workdir: Option<&str>) -> (p: String)
        ensures
            p@ == match workdir {
                Some(w) => if is_absolute(w@) {
                    w@
                } else {
                    self.workspace@ + seq!['/'] + w@
                },
                None => self.workspace@,
            },
    {
        match workdir {
            Some(w) => self.resolve_path(w),
            None => self.workspace.as_str().to_owned(),
        }
    }

    /// The tool's fixed wire description: an object schema with a required
    /// `command` and optional `workdir` and `timeout`.
    pub fn definition(&self) -> (d: ToolDefinition)
        ensures
            d.name@ == "Bash"@,
            d.description@
                == "Execute a shell command. Working directory defaults to the workspace."@,
            d.input_schema@
                == "{\"type\":\"object\",\"properties\":{\"command\":{\"type\":\"string\",\"description\":\"The command to execute\"},\"workdir\":{\"type\":\"string\",\"description\":\"Working directory (default: workspace)\"},\"timeout\":{\"type\":\"number\",\"description\":\"Timeout in milliseconds (optional)\"}},\"required\":[\"command\"]}"@,
    {
        ToolDefinition {
            name: "Bash".to_owned(),
            description: "Execute a shell command. Working directory defaults to the workspace.".to_owned(),
            input_schema: "{\"type\":\"object\",\"properties\":{\"command\":{\"type\":\"string\",\"description\":\"The command to execute\"},\"workdir\":{\"type\":\"string\",\"description\":\"Working directory (default: workspace)\"},\"timeout\":{\"type\":\"number\",\"description\":\"Timeout in milliseconds (optional)\"}},\"required\":[\"command\"]}".to_owned(),
        }
    }
}

} // verus!
