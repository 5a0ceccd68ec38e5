//! The storage device that builds resources on demand by running the data
//! build tool: its settings, the tool's command line, and how a failed build
//! is reported.

use vstd::prelude::*;

verus! {

/// Settings of the device that builds resources with the data build tool.
pub struct BuildDevice {
    databuild_bin: String,
    output_db_addr: String,
    project: String,
    force_recompile: bool,
}

impl BuildDevice {
    pub closed spec fn spec_databuild_bin(&self) -> Seq<char> {
        self.databuild_bin@
    }

    pub closed spec fn spec_output_db_addr(&self) -> Seq<char> {
        self.output_db_addr@
    }

    pub closed spec fn spec_project(&self) -> Seq<char> {
        self.project@
    }

    pub closed spec fn spec_force_recompile(&self) -> bool {
        self.force_recompile
    }

    pub fn new(build_bin: String, output_db_addr: String, project: String, force_recompile: bool) -> (r: Self)
        ensures
            r.spec_databuild_bin() == build_bin@,
            r.spec_output_db_addr() == output_db_addr@,
            r.spec_project() == project@,
            r.spec_force_recompile() == force_recompile,
    {
        BuildDevice { databuild_bin: build_bin, output_db_addr, project, force_recompile }
    }

    /// Whether a load builds the resource first rather than reading what the
    /// manifest already lists.
    pub fn rebuilds_on_load(&self) -> (r: bool)
        ensures
            r == self.spec_force_recompile(),
    {
        self.force_recompile
    }

    /// The program run to build a resource.
    pub fn databuild_bin(&self) -> (r: &String)
        ensures
            r@ == self.spec_databuild_bin(),
    {
        &self.databuild_bin
    }

    /// The arguments of the data build tool for the resource written
    /// `resource_id`: compiled for the runtime, for the game target on
    /// Windows in English, into the device's output database, from its
    /// project.
    pub fn build_command_args(&self, resource_id: &String) -> (r: Vec<String>)
        ensures
            r@.len() == 8,
            r@[0]@ == "compile"@,
            r@[1]@ == resource_id@,
            r@[2]@ == "--rt"@,
            r@[3]@ == "--target=game"@,
            r@[4]@ == "--platform=windows"@,
            r@[5]@ == "--locale=en"@,
            r@[6]@ == "--output="@ + self.spec_output_db_addr(),
            r@[7]@ == "--project="@ + self.spec_project(),
    {
        let mut args: Vec<String> = Vec::new();
        args.push(String::from_str("compile"));
        args.push(resource_id.clone());
        args.push(String::from_str("--rt"));
        args.push(String::from_str("--target=game"));
        args.push(String::from_str("--platform=windows"));
        args.push(String::from_str("--locale=en"));
        let mut output = String::from_str("--output=");
        output.append(self.output_db_addr.as_str());
        args.push(output);
        let mut project = String::from_str("--project=");
        project.append(self.project.as_str());
        args.push(project);
        args
    }
}

/// The error message of a failed build, quoting what the tool wrote to its
/// error stream.
pub fn build_failure_message(stderr: &String) -> (r: String)
    ensures
        r@ == "Data Build Failed: '"@ + stderr@ + "'"@,
{
    let mut msg = String::from_str("Data Build Failed: '");
    msg.append(stderr.as_str());
    msg.append("'");
    msg
}

/// The outcome of running the tool: its output on success, else the
/// failure message.
pub fn build_outcome(success: bool, stdout: Vec<u8>, stderr: &String) -> (r: Result<Vec<u8>, String>)
    ensures
        success ==> r == Ok::<Vec<u8>, String>(stdout),
        !success ==> (r matches Err(msg) && msg@ == "Data Build Failed: '"@ + stderr@ + "'"@),
{
    if success {
        Ok(stdout)
    } else {
        Err(build_failure_message(stderr))
    }
}

} // verus!
