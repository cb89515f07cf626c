//! What the user asks for.
use vstd::prelude::*;
use crate::bundle;
use crate::bundle::Bundle;
use crate::bundle::BundleState;
use crate::bundle::BundleView;
use crate::bundle::Locations;
use crate::bundle::StateView;
use crate::desired::DesiredCommand;
use crate::digest;
use crate::error::ErrorView;
use crate::error::StubError;
use crate::message;
use crate::name_map::NameMap;
use crate::node::Node;
use crate::status;
use crate::status::CommandStatus;
use crate::status::CommandStatusView;
use crate::status::StatusKind;
use crate::text;

verus! {

/// Show whether stubs match their source.
#[derive(Debug)]
pub struct Status {
    /// Print only command names that need to be synchronized.
    pub missing: bool,
    /// Print structured status.
    pub json: bool,
}

/// Upgrade versions selected by managed tool stubs.
#[derive(Debug)]
pub struct Upgrade {
    /// Custom manifest whose stubs should be upgraded.
    pub manifest: Option<String>,
    /// Directory containing the commands.
    pub into: Option<String>,
    /// Upgrade tools selected by system tool stubs.
    pub system: bool,
}

/// Remove command files owned by a synchronized bundle.
#[derive(Debug)]
pub struct Remove {
    /// Custom manifest, in place of the configuration.
    pub manifest: Option<String>,
    /// Directory containing the commands.
    pub into: Option<String>,
    /// Use the system configuration and the system directory.
    pub system: bool,
    /// Remove owned command files even when their contents were modified.
    pub force: bool,
}

/// What a status request prints.
#[derive(Debug)]
pub enum StatusReport {
    /// The statuses, as structured data.
    Structured(Vec<CommandStatus>),
    /// These lines.
    Lines(Vec<String>),
}

/// The model of a [`StatusReport`].
pub enum StatusReportView {
    Structured(Seq<CommandStatusView>),
    Lines(Seq<Seq<char>>),
}

impl View for StatusReport {
    type V = StatusReportView;

    open spec fn view(&self) -> StatusReportView {
        match self {
            StatusReport::Structured(statuses) => StatusReportView::Structured(
                status::status_views(statuses@),
            ),
            StatusReport::Lines(lines) => StatusReportView::Lines(text::texts(lines@)),
        }
    }
}

/// `report` is what a status request prints of some statuses: with `missing`, only
/// those that need a sync.
pub open spec fn reports<D: Fn(&String) -> String>(
    statuses: Seq<CommandStatusView>,
    missing: bool,
    json: bool,
    show: D,
    report: StatusReportView,
) -> bool {
    let listed = if missing {
        status::not_current(statuses)
    } else {
        statuses
    };
    match report {
        StatusReportView::Structured(shown) => json && shown == listed,
        StatusReportView::Lines(lines) => !json && status::shown_by(listed, missing, show, lines),
    }
}

impl Status {
    /// What the request prints, given the commands that the bundle should have
    /// and what was found for each name, with paths as `show` shows them.
    pub fn run<D: Fn(&String) -> String>(
        self,
        bundle: &Bundle,
        desired: &NameMap<DesiredCommand>,
        found: &NameMap<Node>,
        show: D,
    ) -> (report: Result<StatusReport, StubError>)
        requires
            forall|path: &String| call_requires(show, (path,)),
        ensures
            match status::collected(bundle@, desired@, found@) {
                Ok(statuses) => report matches Ok(printed) && reports(
                    statuses,
                    self.missing,
                    self.json,
                    show,
                    printed@,
                ),
                Err(error) => report matches Err(e) && e@ == error,
            },
            report matches Ok(StatusReport::Structured(list)) ==> self.json && (!self.missing
                ==> status::collected(bundle@, desired@, found@) == Ok::<
                Seq<CommandStatusView>,
                ErrorView,
            >(status::status_views(list@))),
            report matches Ok(StatusReport::Lines(lines)) ==> !self.json && (!self.missing
                ==> (status::collected(bundle@, desired@, found@) matches Ok(all) && all.len()
                == lines@.len())),
    {
        let all = match status::collect_status(bundle, desired, found) {
            Ok(statuses) => statuses,
            Err(error) => {
                return Err(error);
            },
        };
        let listed = if self.missing {
            status::retain_missing(all)
        } else {
            all
        };
        Ok(
            if self.json {
                StatusReport::Structured(listed)
            } else {
                StatusReport::Lines(status::status_lines(&listed, self.missing, &show))
            },
        )
    }
}

/// The model of a bundle with a flag, or an error.
pub open spec fn removal_result(found: Result<(Bundle, bool), StubError>) -> Result<
    (BundleView, bool),
    ErrorView,
> {
    match found {
        Ok((bundle, force)) => Ok((bundle@, force)),
        Err(error) => Err(error@),
    }
}

/// `target` may be the bundle that a removal means, with whether modified commands
/// are removed too, or why the request is refused.
pub open spec fn removal_target(
    manifest: Option<Seq<char>>,
    into: Option<Seq<char>>,
    states: Seq<StateView>,
    locations: &Locations,
    system: bool,
    force: bool,
    target: Result<(BundleView, bool), ErrorView>,
) -> bool {
    match target {
        Ok((bundle, forced)) => forced == force && bundle::resolution(
            manifest,
            into,
            states,
            locations,
            system,
            Ok::<BundleView, ErrorView>(bundle),
        ),
        Err(error) => bundle::resolution(
            manifest,
            into,
            states,
            locations,
            system,
            Err::<BundleView, ErrorView>(error),
        ),
    }
}

impl Remove {
    /// The bundle that the request means, and whether modified commands are
    /// removed too.
    pub fn run(self, states: &Vec<BundleState>, locations: &Locations) -> (found: Result<
        (Bundle, bool),
        StubError,
    >)
        ensures
            removal_target(
                text::text_view(self.manifest),
                text::text_view(self.into),
                bundle::state_views(states@),
                locations,
                self.system,
                self.force,
                removal_result(found),
            ),
            found matches Ok((_, forced)) ==> forced == self.force,
            bundle::resolution(
                text::text_view(self.manifest),
                text::text_view(self.into),
                bundle::state_views(states@),
                locations,
                self.system,
                match found {
                    Ok((bundle, _)) => Ok(bundle@),
                    Err(error) => Err(error@),
                },
            ),
    {
        match bundle::resolve_bundle(self.manifest, self.into, states, locations, self.system) {
            Ok(bundle) => Ok((bundle, self.force)),
            Err(error) => Err(error),
        }
    }
}

/// The stubs that an upgrade looks at.
#[derive(Debug)]
pub enum UpgradeTarget {
    /// Those of a bundle.
    Stubs(Bundle),
    /// Those of all system bundles.
    System,
    /// All that are tracked, and those of all system bundles.
    Known,
}

/// The model of an [`UpgradeTarget`].
pub enum UpgradeTargetView {
    Stubs(BundleView),
    System,
    Known,
}

impl View for UpgradeTarget {
    type V = UpgradeTargetView;

    open spec fn view(&self) -> UpgradeTargetView {
        match self {
            UpgradeTarget::Stubs(bundle) => UpgradeTargetView::Stubs(bundle@),
            UpgradeTarget::System => UpgradeTargetView::System,
            UpgradeTarget::Known => UpgradeTargetView::Known,
        }
    }
}

/// The bundle that a target means, or the error of the request. A target without
/// a bundle has none.
pub open spec fn target_bundle(target: Result<UpgradeTargetView, ErrorView>) -> Option<
    Result<BundleView, ErrorView>,
> {
    match target {
        Ok(UpgradeTargetView::Stubs(bundle)) => Some(Ok(bundle)),
        Ok(_) => None,
        Err(error) => Some(Err(error)),
    }
}

/// `target` may be the stubs that an upgrade looks at, or why the request is
/// refused.
pub open spec fn upgrade_target(
    manifest: Option<Seq<char>>,
    into: Option<Seq<char>>,
    states: Seq<StateView>,
    locations: &Locations,
    system: bool,
    target: Result<UpgradeTargetView, ErrorView>,
) -> bool {
    if manifest is Some {
        target_bundle(target) matches Some(outcome) && bundle::resolution(
            manifest,
            into,
            states,
            locations,
            system,
            outcome,
        )
    } else if into is Some {
        target == Err::<UpgradeTargetView, ErrorView>(ErrorView::IntoWithoutManifest)
    } else if system {
        target == Ok::<UpgradeTargetView, ErrorView>(UpgradeTargetView::System)
    } else {
        target == Ok::<UpgradeTargetView, ErrorView>(UpgradeTargetView::Known)
    }
}

/// The model of a target or an error.
pub open spec fn target_result(target: Result<UpgradeTarget, StubError>) -> Result<
    UpgradeTargetView,
    ErrorView,
> {
    match target {
        Ok(found) => Ok(found@),
        Err(error) => Err(error@),
    }
}

impl Upgrade {
    /// The stubs that the request means.
    pub fn run(self, states: &Vec<BundleState>, locations: &Locations) -> (target: Result<
        UpgradeTarget,
        StubError,
    >)
        ensures
            upgrade_target(
                text::text_view(self.manifest),
                text::text_view(self.into),
                bundle::state_views(states@),
                locations,
                self.system,
                target_result(target),
            ),
            self.manifest is Some ==> !(target matches Ok(UpgradeTarget::System)) && !(
            target matches Ok(UpgradeTarget::Known)) && bundle::resolution(
                text::text_view(self.manifest),
                text::text_view(self.into),
                bundle::state_views(states@),
                locations,
                self.system,
                match target {
                    Ok(UpgradeTarget::Stubs(bundle)) => Ok(bundle@),
                    Ok(_) => Err(ErrorView::IntoWithoutManifest),
                    Err(error) => Err(error@),
                },
            ),
            self.manifest is None ==> match target {
                Ok(UpgradeTarget::Stubs(_)) => false,
                Ok(UpgradeTarget::System) => self.into is None && self.system,
                Ok(UpgradeTarget::Known) => self.into is None && !self.system,
                Err(error) => self.into is Some && error@ == ErrorView::IntoWithoutManifest,
            },
    {
        if self.manifest.is_some() {
            match bundle::resolve_bundle(
                self.manifest,
                self.into,
                states,
                locations,
                self.system,
            ) {
                Ok(found) => Ok(UpgradeTarget::Stubs(found)),
                Err(error) => Err(error),
            }
        } else if self.into.is_some() {
            Err(StubError::IntoWithoutManifest)
        } else if self.system {
            Ok(UpgradeTarget::System)
        } else {
            Ok(UpgradeTarget::Known)
        }
    }
}

/// Without `--missing` a status request reports every collected status, once and
/// in order, whatever the format. With it, it reports exactly those that are not
/// current.
pub proof fn law_reported_statuses<D: Fn(&String) -> String>(
    statuses: Seq<CommandStatusView>,
    missing: bool,
    json: bool,
    show: D,
    report: StatusReportView,
)
    requires
        reports(statuses, missing, json, show, report),
    ensures
        json <==> report is Structured,
        report matches StatusReportView::Structured(listed) ==> {
            &&& !missing ==> listed == statuses
            &&& missing ==> forall|entry: CommandStatusView| #[trigger]
                listed.contains(entry) <==> statuses.contains(entry) && entry.status
                    != StatusKind::Current
        },
        report matches StatusReportView::Lines(lines) ==> {
            &&& !missing ==> lines.len() == statuses.len()
            &&& !missing ==> forall|i: int|
                0 <= i < statuses.len() ==> exists|shown: Seq<char>|
                    {
                        &&& #[trigger] message::shows(show, (#[trigger] statuses[i]).path, shown)
                        &&& lines[i] == text::padded(statuses[i].status.word(), 9) + " "@
                            + text::padded(statuses[i].command, 20) + " "@ + shown
                    }
            &&& missing ==> forall|line: Seq<char>| #[trigger]
                lines.contains(line) <==> exists|i: int|
                    0 <= i < statuses.len() && (#[trigger] statuses[i]).status
                        != StatusKind::Current && statuses[i].command == line
        },
{
    let listed = if missing {
        status::not_current(statuses)
    } else {
        statuses
    };
    if missing {
        assert forall|entry: CommandStatusView| #[trigger]
            listed.contains(entry) <==> statuses.contains(entry) && entry.status
                != StatusKind::Current by {
            status::law_not_current(statuses, entry);
        }
    }
    if let StatusReportView::Lines(lines) = report {
        if missing {
            assert forall|line: Seq<char>| #[trigger]
                lines.contains(line) <==> exists|i: int|
                    0 <= i < statuses.len() && (#[trigger] statuses[i]).status
                        != StatusKind::Current && statuses[i].command == line by {
                if lines.contains(line) {
                    let k = choose|k: int| 0 <= k < lines.len() && lines[k] == line;
                    assert(status::status_line(listed[k], missing, show, lines[k]));
                    assert(listed.contains(listed[k]));
                    let i = choose|i: int| 0 <= i < statuses.len() && statuses[i] == listed[k];
                    assert(statuses[i].command == line);
                }
                if exists|i: int|
                    0 <= i < statuses.len() && (#[trigger] statuses[i]).status
                        != StatusKind::Current && statuses[i].command == line {
                    let i = choose|i: int|
                        0 <= i < statuses.len() && (#[trigger] statuses[i]).status
                            != StatusKind::Current && statuses[i].command == line;
                    assert(statuses.contains(statuses[i]));
                    assert(listed.contains(statuses[i]));
                    let k = choose|k: int| 0 <= k < listed.len() && listed[k] == statuses[i];
                    assert(status::status_line(listed[k], missing, show, lines[k]));
                    assert(lines[k] == line);
                }
            }
        } else {
            assert forall|i: int| 0 <= i < statuses.len() implies exists|shown: Seq<char>|
                {
                    &&& #[trigger] message::shows(show, (#[trigger] statuses[i]).path, shown)
                    &&& lines[i] == text::padded(statuses[i].status.word(), 9) + " "@
                        + text::padded(statuses[i].command, 20) + " "@ + shown
                } by {
                assert(status::status_line(statuses[i], missing, show, lines[i]));
            }
        }
    }
}

/// Which commands a status request reports does not depend on the format.
pub proof fn law_format_does_not_choose<D: Fn(&String) -> String>(
    statuses: Seq<CommandStatusView>,
    missing: bool,
    show: D,
    listed: Seq<CommandStatusView>,
    lines: Seq<Seq<char>>,
)
    requires
        reports(statuses, missing, true, show, StatusReportView::Structured(listed)),
        reports(statuses, missing, false, show, StatusReportView::Lines(lines)),
    ensures
        lines.len() == listed.len(),
        forall|i: int|
            0 <= i < lines.len() ==> status::status_line(
                listed[i],
                missing,
                show,
                #[trigger] lines[i],
            ),
{
}

/// A request that names a manifest means the same bundle, or is refused for the
/// same reason, whether it upgrades, removes or does anything else. The flag of a
/// removal is the one that was given.
pub proof fn law_requests_mean_the_same_bundle(
    manifest: Seq<char>,
    into: Option<Seq<char>>,
    states: Seq<StateView>,
    locations: &Locations,
    system: bool,
    force: bool,
    bundle: BundleView,
    error: ErrorView,
)
    ensures
        upgrade_target(
            Some(manifest),
            into,
            states,
            locations,
            system,
            Ok::<UpgradeTargetView, ErrorView>(UpgradeTargetView::Stubs(bundle)),
        ) <==> bundle::resolution(
            Some(manifest),
            into,
            states,
            locations,
            system,
            Ok::<BundleView, ErrorView>(bundle),
        ),
        removal_target(
            Some(manifest),
            into,
            states,
            locations,
            system,
            force,
            Ok::<(BundleView, bool), ErrorView>((bundle, force)),
        ) <==> bundle::resolution(
            Some(manifest),
            into,
            states,
            locations,
            system,
            Ok::<BundleView, ErrorView>(bundle),
        ),
        !removal_target(
            Some(manifest),
            into,
            states,
            locations,
            system,
            force,
            Ok::<(BundleView, bool), ErrorView>((bundle, !force)),
        ),
        upgrade_target(
            Some(manifest),
            into,
            states,
            locations,
            system,
            Err::<UpgradeTargetView, ErrorView>(error),
        ) <==> removal_target(
            Some(manifest),
            into,
            states,
            locations,
            system,
            force,
            Err::<(BundleView, bool), ErrorView>(error),
        ),
        !upgrade_target(
            Some(manifest),
            into,
            states,
            locations,
            system,
            Ok::<UpgradeTargetView, ErrorView>(UpgradeTargetView::System),
        ),
        !upgrade_target(
            Some(manifest),
            into,
            states,
            locations,
            system,
            Ok::<UpgradeTargetView, ErrorView>(UpgradeTargetView::Known),
        ),
{
}

/// An upgrade of a manifest and a directory looks at the bundle of just these: its
/// directory is the absolute path of the given one, and its identifier is that of
/// the manifest's absolute path and this directory.
pub proof fn law_upgrade_of_given_directory(
    manifest: Seq<char>,
    into: Seq<char>,
    states: Seq<StateView>,
    locations: &Locations,
    system: bool,
    target: UpgradeTargetView,
)
    requires
        upgrade_target(
            Some(manifest),
            Some(into),
            states,
            locations,
            system,
            Ok::<UpgradeTargetView, ErrorView>(target),
        ),
    ensures
        target matches UpgradeTargetView::Stubs(bundle) && {
            &&& bundle::absolute_for(into, bundle.into)
            &&& bundle::absolute_for(manifest, bundle.source_path)
            &&& bundle.id == digest::sha256_hex(
                vstd::utf8::encode_utf8(bundle.source_path + "\0"@ + bundle.into),
            )
            &&& bundle.system == system
        },
{
    if let UpgradeTargetView::Stubs(bundle) = target {
        bundle::law_resolved_bundle(
            Some(manifest),
            Some(into),
            states,
            locations,
            system,
            bundle,
        );
    }
}

/// A removal of a manifest and a directory means the bundle of just these, and is
/// forced exactly if the request says so.
pub proof fn law_removal_of_given_directory(
    manifest: Seq<char>,
    into: Seq<char>,
    states: Seq<StateView>,
    locations: &Locations,
    system: bool,
    force: bool,
    bundle: BundleView,
    forced: bool,
)
    requires
        removal_target(
            Some(manifest),
            Some(into),
            states,
            locations,
            system,
            force,
            Ok::<(BundleView, bool), ErrorView>((bundle, forced)),
        ),
    ensures
        forced <==> force,
        bundle::absolute_for(into, bundle.into),
        bundle::absolute_for(manifest, bundle.source_path),
        bundle.id == digest::sha256_hex(
            vstd::utf8::encode_utf8(bundle.source_path + "\0"@ + bundle.into),
        ),
{
    bundle::law_resolved_bundle(Some(manifest), Some(into), states, locations, system, bundle);
}

/// Without a manifest, an upgrade with a directory is refused; otherwise it looks
/// at the stubs of the system if that is asked for, and at all known stubs if not.
pub proof fn law_upgrade_without_manifest(
    into: Option<Seq<char>>,
    states: Seq<StateView>,
    locations: &Locations,
    system: bool,
    target: Result<UpgradeTargetView, ErrorView>,
)
    requires
        upgrade_target(None, into, states, locations, system, target),
    ensures
        match target {
            Ok(UpgradeTargetView::Stubs(_)) => false,
            Ok(UpgradeTargetView::System) => into is None && system,
            Ok(UpgradeTargetView::Known) => into is None && !system,
            Err(error) => into is Some && error == ErrorView::IntoWithoutManifest,
        },
{
}

} // verus!
