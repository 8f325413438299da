//! Board targets and reproducible tool recipes.

use vstd::prelude::*;
use vstd::string::*;

use crate::constraints::ECP5_QOR_TARGET_MHZ;
use crate::physical::improves_fmax;
use crate::physical::name_texts;
use crate::physical::PhysicalFeedback;
use crate::refine::MAX_PHYSICAL_CANDIDATES;
use crate::text::characters;
use crate::text::decimal;
use crate::text::decimal_text;
use crate::text::digit_char;
use crate::text::join;

verus! {

/// Immutable target identity used in artifact manifests.
#[derive(Clone, Copy, Debug, Eq, PartialEq)]
pub struct BoardProfile {
    /// Lattice board ordering code.
    pub board: &'static str,
    /// Exact populated FPGA device.
    pub device: &'static str,
    /// Speed grade printed in the device ordering code.
    pub speed_grade: u8,
    /// nextpnr architecture/device selector.
    pub nextpnr_device: &'static str,
    /// nextpnr package selector.
    pub nextpnr_package: &'static str,
    /// Default FTDI-provided board clock.
    pub default_clock_hz: u32,
    /// Hardware setup needed for the default clock.
    pub clock_setup: &'static str,
}

/// Whether the profile is that of the LFE5UM5G-85F evaluation board.
pub open spec fn is_evaluation_board(profile: BoardProfile) -> bool {
    &&& profile.board@ == "LFE5UM5G-85F-EVN"@
    &&& profile.device@ == "LFE5UM5G-85F-8BG381"@
    &&& profile.speed_grade == 8
    &&& profile.nextpnr_device@ == "--um5g-85k"@
    &&& profile.nextpnr_package@ == "CABGA381"@
    &&& profile.default_clock_hz == 12_000_000
    &&& profile.clock_setup@ == "short JP2 to connect the FTDI 12 MHz clock to FPGA pin A10"@
}

impl BoardProfile {
    /// The LFE5UM5G-85F evaluation board.
    pub fn lfe5um5g_85f_evn() -> (profile: Self)
        ensures
            is_evaluation_board(profile),
    {
        BoardProfile {
            board: "LFE5UM5G-85F-EVN",
            device: "LFE5UM5G-85F-8BG381",
            speed_grade: 8,
            nextpnr_device: "--um5g-85k",
            nextpnr_package: "CABGA381",
            default_clock_hz: 12_000_000,
            clock_setup: "short JP2 to connect the FTDI 12 MHz clock to FPGA pin A10",
        }
    }
}

/// Verification evidence that a tool run produces.
#[derive(Clone, Copy, Debug, Eq, PartialEq, Structural)]
pub enum VerificationStage {
    /// Timing-constrained implementation.
    PlaceAndRoute,
}

/// A subprocess invocation represented without a shell.
#[derive(Clone, Debug, Eq, PartialEq)]
pub struct ToolCommand {
    /// Executable name.
    pub program: &'static str,
    /// Individual process arguments.
    pub args: Vec<String>,
    /// Verification evidence produced on success, if any.
    pub evidence: Option<VerificationStage>,
}

/// Conventional paths belonging to one immutable build directory.
#[derive(Clone, Debug, Eq, PartialEq)]
pub struct FlowArtifacts {
    /// Serialized mapped netlist consumed by nextpnr.
    pub mapped_json: String,
    /// Post-draft netlist annotated with exact physical placements.
    pub draft_placed_json: String,
    /// Detailed routed timing observations from the draft implementation.
    pub draft_report: String,
    /// Throwaway routed configuration used to obtain physical feedback.
    pub draft_config: String,
    /// Equivalent mapped netlist refined using draft physical feedback.
    pub refined_json: String,
    /// Post-route candidate netlist produced from the refined mapping.
    pub refined_placed_json: String,
    /// Detailed timing report for the refined implementation candidate.
    pub refined_report: String,
    /// Routed configuration for the refined implementation candidate.
    pub refined_config: String,
    /// nextpnr textual configuration.
    pub routed_config: String,
    /// Packed FPGA bitstream.
    pub bitstream: String,
    /// Optional SVF programming stream.
    pub svf: String,
    /// Board LPF copied into the artifact directory.
    pub constraints: String,
}

/// A path without the slashes it ends in.
pub open spec fn without_slashes(path: Seq<char>) -> Seq<char>
    decreases path.len(),
{
    if path.len() > 0 && path.last() == '/' {
        without_slashes(path.drop_last())
    } else {
        path
    }
}

fn trim_slashes(path: &str) -> (trimmed: String)
    ensures
        trimmed@ == without_slashes(path@),
{
    let chars = characters(path);
    let mut end: usize = chars.len();
    assert(path@.take(end as int) =~= path@);
    while end > 0 && chars[end - 1] == '/'
        invariant
            chars@ == path@,
            end <= chars@.len(),
            without_slashes(path@) == without_slashes(path@.take(end as int)),
        decreases end,
    {
        assert(path@.take(end as int).drop_last() =~= path@.take(end - 1));
        end -= 1;
    }
    assert(path@.subrange(0, end as int) =~= path@.take(end as int));
    path.substring_char(0, end).to_owned()
}

/// Whether the artifacts have their conventional names below `root`.
pub open spec fn lie_under(artifacts: FlowArtifacts, root: Seq<char>) -> bool {
    &&& artifacts.mapped_json@ == root + "/design.json"@
    &&& artifacts.draft_placed_json@ == root + "/design.draft.json"@
    &&& artifacts.draft_report@ == root + "/design.draft-report.json"@
    &&& artifacts.draft_config@ == root + "/design.draft.config"@
    &&& artifacts.refined_json@ == root + "/design.refined.json"@
    &&& artifacts.refined_placed_json@ == root + "/design.refined-placed.json"@
    &&& artifacts.refined_report@ == root + "/design.refined-report.json"@
    &&& artifacts.refined_config@ == root + "/design.refined.config"@
    &&& artifacts.routed_config@ == root + "/design.config"@
    &&& artifacts.bitstream@ == root + "/design.bit"@
    &&& artifacts.svf@ == root + "/design.svf"@
    &&& artifacts.constraints@ == root + "/board.lpf"@
}

impl FlowArtifacts {
    /// Returns conventional filenames below `root`.
    pub fn under(root: &str) -> (artifacts: Self)
        ensures
            lie_under(artifacts, without_slashes(root@)),
    {
        let root = trim_slashes(root);
        let root = root.as_str();
        FlowArtifacts {
            mapped_json: join(root, "/design.json"),
            draft_placed_json: join(root, "/design.draft.json"),
            draft_report: join(root, "/design.draft-report.json"),
            draft_config: join(root, "/design.draft.config"),
            refined_json: join(root, "/design.refined.json"),
            refined_placed_json: join(root, "/design.refined-placed.json"),
            refined_report: join(root, "/design.refined-report.json"),
            refined_config: join(root, "/design.refined.config"),
            routed_config: join(root, "/design.config"),
            bitstream: join(root, "/design.bit"),
            svf: join(root, "/design.svf"),
            constraints: join(root, "/board.lpf"),
        }
    }
}

/// Open-source ECP5 synthesis and implementation recipe.
#[derive(Clone, Debug, Eq, PartialEq)]
pub struct Ecp5Flow {
    /// Synthesizable top module.
    pub top: String,
    /// Physical board target.
    pub board: BoardProfile,
    /// Frequency used to drive timing optimization and sign-off.
    pub timing_goal_mhz: u32,
    /// Files produced during the flow.
    pub artifacts: FlowArtifacts,
}

/// The arguments of an implementation run.
pub open spec fn implementation_args(
    flow: Ecp5Flow,
    json: Seq<char>,
    config: Seq<char>,
) -> Seq<Seq<char>> {
    seq![
        flow.board.nextpnr_device@,
        "--package"@,
        flow.board.nextpnr_package@,
        "--speed"@,
        decimal_text(flow.board.speed_grade as nat),
        "--json"@,
        json,
        "--lpf"@,
        flow.artifacts.constraints@,
        "--textcfg"@,
        config,
        "--freq"@,
        decimal_text(flow.timing_goal_mhz as nat),
        "--placer-budgets"@,
        "--placer-heap-timingweight"@,
        "30"@,
        "--tmg-ripup"@,
        "--seed"@,
        "1"@,
    ]
}

/// The further arguments of a run that only returns observations.
pub open spec fn observation_args(placed: Seq<char>, report: Seq<char>) -> Seq<Seq<char>> {
    seq![
        "--write"@,
        placed,
        "--report"@,
        report,
        "--detailed-timing-report"@,
        "--timing-allow-fail"@,
    ]
}

/// The files of one physical candidate.
pub ghost struct CandidateFiles {
    pub json: Seq<char>,
    pub config: Seq<char>,
    pub placed: Seq<char>,
    pub report: Seq<char>,
}

/// A text without the suffix `.json`.
pub open spec fn without_json(path: Seq<char>) -> Seq<char> {
    let suffix = ".json"@;
    if path.len() >= suffix.len() && path.skip(path.len() - suffix.len()) == suffix {
        path.take(path.len() - suffix.len())
    } else {
        path
    }
}

/// The files of candidate `index`: the refined files, or numbered ones beside them.
pub open spec fn candidate_files(artifacts: FlowArtifacts, index: nat) -> CandidateFiles {
    if index == 0 {
        CandidateFiles {
            json: artifacts.refined_json@,
            config: artifacts.refined_config@,
            placed: artifacts.refined_placed_json@,
            report: artifacts.refined_report@,
        }
    } else {
        let stem = without_json(artifacts.refined_json@) + ".candidate-"@ + decimal_text(index);
        CandidateFiles {
            json: stem + ".json"@,
            config: stem + ".config"@,
            placed: stem + "-placed.json"@,
            report: stem + "-report.json"@,
        }
    }
}

/// Whether a command is the observed implementation of candidate `index`.
pub open spec fn is_candidate_command(flow: Ecp5Flow, command: ToolCommand, index: nat) -> bool {
    let files = candidate_files(flow.artifacts, index);
    &&& command.program@ == "nextpnr-ecp5"@
    &&& name_texts(command.args@) == implementation_args(flow, files.json, files.config)
        + observation_args(files.placed, files.report)
    &&& command.evidence is None
}

/// Whether a command packs a configuration.
pub open spec fn is_pack_command(flow: Ecp5Flow, command: ToolCommand, config: Seq<char>) -> bool {
    &&& command.program@ == "ecppack"@
    &&& name_texts(command.args@) == seq![
        "--svf"@,
        flow.artifacts.svf@,
        config,
        flow.artifacts.bitstream@,
    ]
    &&& command.evidence is None
}

/// The clocks of an implementation.
pub open spec fn fmax_of(feedback: PhysicalFeedback) -> Seq<(Seq<char>, (u32, u32))> {
    feedback.clock_fmax_khz@
}

/// The best of the first `count` candidates: each that improves on the best before it replaces it.
pub open spec fn best_candidate(
    draft: PhysicalFeedback,
    candidates: Seq<PhysicalFeedback>,
    count: nat,
) -> Option<int>
    decreases count,
{
    if count == 0 {
        None
    } else {
        let best = best_candidate(draft, candidates, (count - 1) as nat);
        let incumbent = match best {
            Some(index) => candidates[index],
            None => draft,
        };
        if improves_fmax(fmax_of(candidates[count - 1]), fmax_of(incumbent)) {
            Some(count - 1)
        } else {
            best
        }
    }
}

/// How many candidates are considered.
pub open spec fn considered(count: nat) -> nat {
    if count < MAX_PHYSICAL_CANDIDATES {
        count
    } else {
        MAX_PHYSICAL_CANDIDATES as nat
    }
}

/// The configuration of the best implementation.
pub open spec fn best_config(
    flow: Ecp5Flow,
    draft: PhysicalFeedback,
    candidates: Seq<PhysicalFeedback>,
) -> Seq<char> {
    match best_candidate(draft, candidates, considered(candidates.len())) {
        Some(index) => candidate_files(flow.artifacts, index as nat).config,
        None => flow.artifacts.draft_config@,
    }
}

/// Selection never regresses: what is selected is the draft itself or improves on it.
pub proof fn law_selection_never_regresses(
    draft: PhysicalFeedback,
    candidates: Seq<PhysicalFeedback>,
    count: nat,
)
    requires
        count <= candidates.len(),
    ensures
        best_candidate(draft, candidates, count) matches Some(index) ==> 0 <= index < count
            && improves_fmax(fmax_of(candidates[index]), fmax_of(draft)),
    decreases count,
{
    if count > 0 {
        law_selection_never_regresses(draft, candidates, (count - 1) as nat);
        if let Some(index) = best_candidate(draft, candidates, (count - 1) as nat) {
            if improves_fmax(fmax_of(candidates[count - 1]), fmax_of(candidates[index])) {
                crate::physical::law_improvement_is_transitive(
                    fmax_of(candidates[count - 1]),
                    fmax_of(candidates[index]),
                    fmax_of(draft),
                );
            }
        }
    }
}

/// Without a candidate that improves on the draft the draft is selected.
pub proof fn law_selection_rolls_back(
    flow: Ecp5Flow,
    draft: PhysicalFeedback,
    candidates: Seq<PhysicalFeedback>,
)
    requires
        forall|i: int|
            0 <= i < candidates.len() ==> !improves_fmax(
                fmax_of(#[trigger] candidates[i]),
                fmax_of(draft),
            ),
    ensures
        best_config(flow, draft, candidates) == flow.artifacts.draft_config@,
{
    let count = considered(candidates.len());
    law_selection_never_regresses(draft, candidates, count);
}

/// The candidates of one flow share no file.
pub proof fn law_candidates_share_no_file(
    artifacts: FlowArtifacts,
    root: Seq<char>,
    i: nat,
    j: nat,
)
    requires
        lie_under(artifacts, root),
        i < j < MAX_PHYSICAL_CANDIDATES,
    ensures
        candidate_files(artifacts, i).json != candidate_files(artifacts, j).json,
        candidate_files(artifacts, i).config != candidate_files(artifacts, j).config,
        candidate_files(artifacts, i).placed != candidate_files(artifacts, j).placed,
        candidate_files(artifacts, i).report != candidate_files(artifacts, j).report,
{
    reveal_strlit("/design.refined.json");
    reveal_strlit("/design.refined-placed.json");
    reveal_strlit("/design.refined-report.json");
    reveal_strlit("/design.refined.config");
    reveal_strlit(".candidate-");
    reveal_strlit(".json");
    reveal_strlit(".config");
    reveal_strlit("-placed.json");
    reveal_strlit("-report.json");
    reveal_with_fuel(decimal_text, 2);
    let base = without_json(artifacts.refined_json@) + ".candidate-"@;
    let at = base.len() as int;
    let first = candidate_files(artifacts, i);
    let second = candidate_files(artifacts, j);
    assert(decimal_text(j) =~= seq![digit_char(j)]);
    if i > 0 {
        assert(decimal_text(i) =~= seq![digit_char(i)]);
        assert(digit_char(i) != digit_char(j));
        assert(first.json[at] == digit_char(i) && second.json[at] == digit_char(j));
        assert(first.config[at] == digit_char(i) && second.config[at] == digit_char(j));
        assert(first.placed[at] == digit_char(i) && second.placed[at] == digit_char(j));
        assert(first.report[at] == digit_char(i) && second.report[at] == digit_char(j));
    } else {
        assert(first.json.len() < second.json.len());
        assert(first.config.len() < second.config.len());
        assert(first.placed.len() < second.placed.len());
        assert(first.report.len() < second.report.len());
    }
}

proof fn lemma_texts_push(names: Seq<String>, name: String)
    ensures
        name_texts(names.push(name)) == name_texts(names).push(name@),
{
    assert(name_texts(names.push(name)) =~= name_texts(names).push(name@));
}

fn push_text(args: &mut Vec<String>, text: &str)
    ensures
        name_texts(final(args)@) == name_texts(old(args)@).push(text@),
{
    let name = text.to_owned();
    proof {
        lemma_texts_push(args@, name);
    }
    args.push(name);
}

impl Ecp5Flow {
    /// Creates a flow for the initial board target.
    pub fn evaluation_board(top: &str, artifact_root: &str) -> (flow: Self)
        ensures
            flow.top@ == top@,
            is_evaluation_board(flow.board),
            flow.timing_goal_mhz == ECP5_QOR_TARGET_MHZ,
            lie_under(flow.artifacts, without_slashes(artifact_root@)),
    {
        Ecp5Flow {
            top: top.to_owned(),
            board: BoardProfile::lfe5um5g_85f_evn(),
            timing_goal_mhz: ECP5_QOR_TARGET_MHZ,
            artifacts: FlowArtifacts::under(artifact_root),
        }
    }

    fn place_and_route_command_for(&self, json: &str, config: &str) -> (command: ToolCommand)
        ensures
            command.program@ == "nextpnr-ecp5"@,
            name_texts(command.args@) == implementation_args(*self, json@, config@),
            command.evidence == Some(VerificationStage::PlaceAndRoute),
    {
        let mut args: Vec<String> = Vec::new();
        push_text(&mut args, self.board.nextpnr_device);
        push_text(&mut args, "--package");
        push_text(&mut args, self.board.nextpnr_package);
        push_text(&mut args, "--speed");
        push_text(&mut args, decimal(self.board.speed_grade as u128).as_str());
        push_text(&mut args, "--json");
        push_text(&mut args, json);
        push_text(&mut args, "--lpf");
        push_text(&mut args, self.artifacts.constraints.as_str());
        push_text(&mut args, "--textcfg");
        push_text(&mut args, config);
        push_text(&mut args, "--freq");
        push_text(&mut args, decimal(self.timing_goal_mhz as u128).as_str());
        push_text(&mut args, "--placer-budgets");
        push_text(&mut args, "--placer-heap-timingweight");
        push_text(&mut args, "30");
        push_text(&mut args, "--tmg-ripup");
        push_text(&mut args, "--seed");
        push_text(&mut args, "1");
        assert(name_texts(args@) =~= implementation_args(*self, json@, config@));
        ToolCommand {
            program: "nextpnr-ecp5",
            args,
            evidence: Some(VerificationStage::PlaceAndRoute),
        }
    }

    fn observed_command(&self, json: &str, config: &str, placed: &str, report: &str) -> (command:
        ToolCommand)
        ensures
            command.program@ == "nextpnr-ecp5"@,
            name_texts(command.args@) == implementation_args(*self, json@, config@)
                + observation_args(placed@, report@),
            command.evidence is None,
    {
        let command = self.place_and_route_command_for(json, config);
        let mut args = command.args;
        push_text(&mut args, "--write");
        push_text(&mut args, placed);
        push_text(&mut args, "--report");
        push_text(&mut args, report);
        push_text(&mut args, "--detailed-timing-report");
        push_text(&mut args, "--timing-allow-fail");
        assert(name_texts(args@) =~= implementation_args(*self, json@, config@)
            + observation_args(placed@, report@));
        ToolCommand { program: command.program, args, evidence: None }
    }

    /// Deterministic routed draft used only to return physical observations to
    /// synthesis. Timing failure is allowed because this is not sign-off.
    pub fn draft_place_and_route_command(&self) -> (command: ToolCommand)
        ensures
            command.program@ == "nextpnr-ecp5"@,
            name_texts(command.args@) == implementation_args(
                *self,
                self.artifacts.mapped_json@,
                self.artifacts.draft_config@,
            ) + observation_args(
                self.artifacts.draft_placed_json@,
                self.artifacts.draft_report@,
            ),
            command.evidence is None,
    {
        self.observed_command(
            self.artifacts.mapped_json.as_str(),
            self.artifacts.draft_config.as_str(),
            self.artifacts.draft_placed_json.as_str(),
            self.artifacts.draft_report.as_str(),
        )
    }

    /// nextpnr command for the exact board device.
    pub fn place_and_route_command(&self) -> (command: ToolCommand)
        ensures
            command.program@ == "nextpnr-ecp5"@,
            name_texts(command.args@) == implementation_args(
                *self,
                self.artifacts.mapped_json@,
                self.artifacts.routed_config@,
            ),
            command.evidence == Some(VerificationStage::PlaceAndRoute),
    {
        self.place_and_route_command_for(
            self.artifacts.mapped_json.as_str(),
            self.artifacts.routed_config.as_str(),
        )
    }

    /// Final implementation command for a netlist refined from the matching
    /// deterministic draft run.
    pub fn refined_place_and_route_command(&self) -> (command: ToolCommand)
        ensures
            is_candidate_command(*self, command, 0),
    {
        self.physical_candidate_place_and_route_command(0)
    }

    /// Returns same-seed implementation commands for the bounded physical
    /// candidates emitted by synthesis. `candidate_count` is the number
    /// reported by the synthesis command, not an optimization-mode choice.
    pub fn physical_candidate_place_and_route_commands(&self, candidate_count: usize) -> (commands:
        Vec<ToolCommand>)
        ensures
            commands@.len() == considered(candidate_count as nat),
            forall|i: int|
                0 <= i < commands@.len() ==> is_candidate_command(
                    *self,
                    #[trigger] commands@[i],
                    i as nat,
                ),
    {
        let count = if candidate_count < MAX_PHYSICAL_CANDIDATES {
            candidate_count
        } else {
            MAX_PHYSICAL_CANDIDATES
        };
        let mut commands: Vec<ToolCommand> = Vec::new();
        for index in 0..count
            invariant
                commands@.len() == index,
                forall|i: int|
                    0 <= i < index ==> is_candidate_command(
                        *self,
                        #[trigger] commands@[i],
                        i as nat,
                    ),
        {
            commands.push(self.physical_candidate_place_and_route_command(index));
        }
        commands
    }

    fn physical_candidate_place_and_route_command(&self, index: usize) -> (command: ToolCommand)
        ensures
            is_candidate_command(*self, command, index as nat),
    {
        let (json, config, placed, report) = self.physical_candidate_artifacts(index);
        self.observed_command(json.as_str(), config.as_str(), placed.as_str(), report.as_str())
    }

    fn physical_candidate_artifacts(&self, index: usize) -> (files: (String, String, String, String))
        ensures
            files.0@ == candidate_files(self.artifacts, index as nat).json,
            files.1@ == candidate_files(self.artifacts, index as nat).config,
            files.2@ == candidate_files(self.artifacts, index as nat).placed,
            files.3@ == candidate_files(self.artifacts, index as nat).report,
    {
        if index == 0 {
            return (
                self.artifacts.refined_json.clone(),
                self.artifacts.refined_config.clone(),
                self.artifacts.refined_placed_json.clone(),
                self.artifacts.refined_report.clone(),
            );
        }
        let mut stem = strip_json(&self.artifacts.refined_json);
        stem.append(".candidate-");
        stem.append(decimal(index as u128).as_str());
        let stem = stem.as_str();
        (
            join(stem, ".json"),
            join(stem, ".config"),
            join(stem, "-placed.json"),
            join(stem, "-report.json"),
        )
    }

    /// Selects the routed draft unless the refined candidate improves a clock
    /// and regresses none of them.
    pub fn select_physical_config(&self, draft: &PhysicalFeedback, refined: &PhysicalFeedback) -> (
        config: &str)
        ensures
            config@ == if improves_fmax(fmax_of(*refined), fmax_of(*draft)) {
                self.artifacts.refined_config@
            } else {
                self.artifacts.draft_config@
            },
    {
        if refined.improves_timing_over(draft) {
            self.artifacts.refined_config.as_str()
        } else {
            self.artifacts.draft_config.as_str()
        }
    }

    /// Selects the best monotonically improving implementation from a routed
    /// draft and the ordered bounded candidate set. Candidates that regress
    /// any reported clock are ignored.
    pub fn select_physical_candidate_config(
        &self,
        draft: &PhysicalFeedback,
        candidates: &[PhysicalFeedback],
    ) -> (config: String)
        ensures
            config@ == best_config(*self, *draft, candidates@),
    {
        let count = if candidates.len() < MAX_PHYSICAL_CANDIDATES {
            candidates.len()
        } else {
            MAX_PHYSICAL_CANDIDATES
        };
        let mut best: Option<usize> = None;
        for index in 0..count
            invariant
                count == considered(candidates@.len()),
                count <= candidates@.len(),
                match best {
                    Some(found) => found < index && best_candidate(
                        *draft,
                        candidates@,
                        index as nat,
                    ) == Some(found as int),
                    None => best_candidate(*draft, candidates@, index as nat) is None,
                },
        {
            let improves = match best {
                Some(found) => candidates[index].improves_timing_over(&candidates[found]),
                None => candidates[index].improves_timing_over(draft),
            };
            if improves {
                best = Some(index);
            }
        }
        match best {
            Some(found) => self.physical_candidate_artifacts(found).1,
            None => self.artifacts.draft_config.clone(),
        }
    }

    /// Bitstream pack command, available only after every required
    /// verification stage passed: `authorization` is the outcome of the
    /// release gates, and its failure is returned.
    pub fn pack_command<E>(&self, authorization: Result<(), E>) -> (result: Result<ToolCommand, E>)
        ensures
            match authorization {
                Ok(()) => result matches Ok(command) && is_pack_command(
                    *self,
                    command,
                    self.artifacts.routed_config@,
                ),
                Err(blocked) => result == Err::<ToolCommand, E>(blocked),
            },
    {
        match authorization {
            Ok(()) => Ok(self.pack_command_for_config(self.artifacts.routed_config.as_str())),
            Err(blocked) => Err(blocked),
        }
    }

    /// Packs the faster of a routed draft and its equivalent refined
    /// candidate, automatically rolling back a timing regression.
    pub fn pack_physical_command<E>(
        &self,
        authorization: Result<(), E>,
        draft: &PhysicalFeedback,
        refined: &PhysicalFeedback,
    ) -> (result: Result<ToolCommand, E>)
        ensures
            match authorization {
                Ok(()) => result matches Ok(command) && is_pack_command(
                    *self,
                    command,
                    if improves_fmax(fmax_of(*refined), fmax_of(*draft)) {
                        self.artifacts.refined_config@
                    } else {
                        self.artifacts.draft_config@
                    },
                ),
                Err(blocked) => result == Err::<ToolCommand, E>(blocked),
            },
    {
        match authorization {
            Ok(()) => Ok(
                self.pack_command_for_config(self.select_physical_config(draft, refined)),
            ),
            Err(blocked) => Err(blocked),
        }
    }

    /// Packs the best same-seed physical candidate, or the draft when every
    /// candidate is slower.
    pub fn pack_physical_candidates_command<E>(
        &self,
        authorization: Result<(), E>,
        draft: &PhysicalFeedback,
        candidates: &[PhysicalFeedback],
    ) -> (result: Result<ToolCommand, E>)
        ensures
            match authorization {
                Ok(()) => result matches Ok(command) && is_pack_command(
                    *self,
                    command,
                    best_config(*self, *draft, candidates@),
                ),
                Err(blocked) => result == Err::<ToolCommand, E>(blocked),
            },
    {
        match authorization {
            Ok(()) => {
                let config = self.select_physical_candidate_config(draft, candidates);
                Ok(self.pack_command_for_config(config.as_str()))
            },
            Err(blocked) => Err(blocked),
        }
    }

    fn pack_command_for_config(&self, config: &str) -> (command: ToolCommand)
        ensures
            is_pack_command(*self, command, config@),
    {
        let mut args: Vec<String> = Vec::new();
        push_text(&mut args, "--svf");
        push_text(&mut args, self.artifacts.svf.as_str());
        push_text(&mut args, config);
        push_text(&mut args, self.artifacts.bitstream.as_str());
        assert(name_texts(args@) =~= seq![
            "--svf"@,
            self.artifacts.svf@,
            config@,
            self.artifacts.bitstream@,
        ]);
        ToolCommand { program: "ecppack", args, evidence: None }
    }
}

fn strip_json(path: &String) -> (stem: String)
    ensures
        stem@ == without_json(path@),
{
    let chars = characters(path.as_str());
    let suffix = characters(".json");
    if chars.len() < suffix.len() {
        return path.clone();
    }
    let total: usize = chars.len();
    let start: usize = total - suffix.len();
    for i in 0..suffix.len()
        invariant
            chars@ == path@,
            suffix@ == ".json"@,
            total == chars@.len(),
            start + suffix@.len() == total,
            forall|j: int| 0 <= j < i ==> chars@[start + j] == suffix@[j],
    {
        if chars[start + i] != suffix[i] {
            assert(path@.skip(start as int)[i as int] != ".json"@[i as int]);
            return path.clone();
        }
    }
    assert(path@.skip(start as int) =~= ".json"@);
    assert(path@.take(start as int) =~= path@.subrange(0, start as int));
    path.as_str().substring_char(0, start).to_owned()
}

} // verus!
