//! How messages tell of paths.
//!
//! A message names paths as callers show them. So it is put together in two
//! steps: what it tells of is shown, and the texts that this gives are fitted in.
use vstd::prelude::*;
use crate::text;

verus! {

/// What a part of a message tells of.
#[derive(Debug)]
pub enum Subject {
    /// A path, which callers show in their way.
    Path(String),
    /// A thing with a name of its own.
    Named(String),
}

/// The model of a [`Subject`].
pub enum SubjectView {
    Path(Seq<char>),
    Named(Seq<char>),
}

impl View for Subject {
    type V = SubjectView;

    open spec fn view(&self) -> SubjectView {
        match self {
            Subject::Path(path) => SubjectView::Path(path@),
            Subject::Named(name) => SubjectView::Named(name@),
        }
    }
}

impl Subject {
    /// Another copy of the subject.
    pub fn copy(&self) -> (same: Subject)
        ensures
            same@ == self@,
    {
        match self {
            Subject::Path(path) => Subject::Path(path.clone()),
            Subject::Named(name) => Subject::Named(name.clone()),
        }
    }
}

/// The models of some subjects.
pub open spec fn subject_views(subjects: Seq<Subject>) -> Seq<SubjectView> {
    Seq::new(subjects.len(), |i: int| subjects[i]@)
}

/// A part of a message: what it tells of, and what it says of it.
#[derive(Debug)]
pub struct Notice {
    pub subject: Subject,
    pub rest: String,
}

/// The model of a [`Notice`].
pub struct NoticeView {
    pub subject: SubjectView,
    pub rest: Seq<char>,
}

impl View for Notice {
    type V = NoticeView;

    open spec fn view(&self) -> NoticeView {
        NoticeView { subject: self.subject@, rest: self.rest@ }
    }
}

/// The models of some notices.
pub open spec fn notice_views(notices: Seq<Notice>) -> Seq<NoticeView> {
    Seq::new(notices.len(), |i: int| notices[i]@)
}

/// What the notices tell of.
pub open spec fn notice_subjects(notices: Seq<NoticeView>) -> Seq<SubjectView> {
    Seq::new(notices.len(), |i: int| notices[i].subject)
}

/// The texts of the notices, given how what they tell of is shown.
pub open spec fn notice_texts(notices: Seq<NoticeView>, told: Seq<Seq<char>>) -> Seq<Seq<char>> {
    Seq::new(notices.len(), |i: int| told[i] + notices[i].rest)
}

/// `show` may show the path as `shown`.
pub open spec fn shows<D: Fn(&String) -> String>(
    show: D,
    path: Seq<char>,
    shown: Seq<char>,
) -> bool {
    exists|asked: String, given: String| #[trigger]
        call_ensures(show, (&asked,), given) && asked@ == path && given@ == shown
}

/// `told` is how a message names the subject when `show` shows paths.
pub open spec fn tells<D: Fn(&String) -> String>(
    show: D,
    subject: SubjectView,
    told: Seq<char>,
) -> bool {
    match subject {
        SubjectView::Path(path) => shows(show, path, told),
        SubjectView::Named(name) => told == name,
    }
}

/// `told` is how a message names the subjects when `show` shows paths.
pub open spec fn tells_all<D: Fn(&String) -> String>(
    show: D,
    subjects: Seq<SubjectView>,
    told: Seq<Seq<char>>,
) -> bool {
    &&& told.len() == subjects.len()
    &&& forall|i: int| 0 <= i < told.len() ==> tells(show, subjects[i], #[trigger] told[i])
}

/// Shows a path.
pub fn show_path<D: Fn(&String) -> String>(path: &String, show: &D) -> (shown: String)
    requires
        forall|asked: &String| call_requires(*show, (asked,)),
    ensures
        shows(*show, path@, shown@),
{
    show(path)
}

/// Names each of the subjects.
pub fn tell_all<D: Fn(&String) -> String>(subjects: &Vec<Subject>, show: &D) -> (told: Vec<String>)
    requires
        forall|path: &String| call_requires(*show, (path,)),
    ensures
        tells_all(*show, subject_views(subjects@), text::texts(told@)),
{
    let mut told: Vec<String> = Vec::new();
    for i in 0..subjects.len()
        invariant
            forall|path: &String| call_requires(*show, (path,)),
            told@.len() == i,
            forall|j: int| 0 <= j < i ==> tells(*show, subjects@[j]@, (#[trigger] told@[j])@),
    {
        told.push(
            match &subjects[i] {
                Subject::Path(path) => show_path(path, show),
                Subject::Named(name) => name.clone(),
            },
        );
    }
    let ghost texts = text::texts(told@);
    assert forall|i: int| 0 <= i < texts.len() implies tells(
        *show,
        subject_views(subjects@)[i],
        #[trigger] texts[i],
    ) by {
        assert(texts[i] == told@[i]@);
    }
    told
}

/// Another copy of the notices.
pub fn copy_notices(notices: &Vec<Notice>) -> (same: Vec<Notice>)
    ensures
        notice_views(same@) == notice_views(notices@),
{
    let mut same: Vec<Notice> = Vec::new();
    for i in 0..notices.len()
        invariant
            same@.len() == i,
            forall|j: int| 0 <= j < i ==> (#[trigger] same@[j])@ == notices@[j]@,
    {
        same.push(
            Notice { subject: notices[i].subject.copy(), rest: notices[i].rest.clone() },
        );
    }
    assert(notice_views(same@) =~= notice_views(notices@));
    same
}

/// What the notices tell of.
pub fn subjects_of(notices: &Vec<Notice>) -> (subjects: Vec<Subject>)
    ensures
        subject_views(subjects@) == notice_subjects(notice_views(notices@)),
{
    let mut subjects: Vec<Subject> = Vec::new();
    for i in 0..notices.len()
        invariant
            subjects@.len() == i,
            forall|j: int| 0 <= j < i ==> (#[trigger] subjects@[j])@ == notices@[j]@.subject,
    {
        subjects.push(notices[i].subject.copy());
    }
    assert(subject_views(subjects@) =~= notice_subjects(notice_views(notices@)));
    subjects
}

/// Joins the texts of the notices, given how what they tell of is shown.
pub fn join_notices(notices: &Vec<Notice>, told: &Vec<String>, separator: &str) -> (whole: String)
    requires
        told@.len() >= notices@.len(),
    ensures
        whole@ == text::joined(
            notice_texts(notice_views(notices@), text::texts(told@)),
            separator@,
        ),
{
    let mut parts: Vec<String> = Vec::new();
    for i in 0..notices.len()
        invariant
            told@.len() >= notices@.len(),
            parts@.len() == i,
            forall|j: int|
                0 <= j < i ==> (#[trigger] parts@[j])@ == told@[j]@ + notices@[j]@.rest,
    {
        parts.push(text::concat(told[i].as_str(), notices[i].rest.as_str()));
    }
    assert(text::texts(parts@) =~= notice_texts(notice_views(notices@), text::texts(told@)));
    text::join(&parts, separator)
}

/// A path is shown by what is to show it, and anything else by its own name. What is
/// told keeps the order of what it tells of.
pub proof fn law_told_subjects<D: Fn(&String) -> String>(
    show: D,
    subjects: Seq<SubjectView>,
    told: Seq<Seq<char>>,
    i: int,
)
    requires
        tells_all(show, subjects, told),
        0 <= i < subjects.len(),
    ensures
        told.len() == subjects.len(),
        subjects[i] matches SubjectView::Named(name) ==> told[i] == name,
        subjects[i] matches SubjectView::Path(path) ==> exists|asked: String, given: String|
            #[trigger]
            call_ensures(show, (&asked,), given) && asked@ == path && given@ == told[i],
{
    assert(tells(show, subjects[i], told[i]));
}

/// The text of a notice is how what it tells of is shown, followed by what it says.
pub proof fn law_notice_texts(notices: Seq<NoticeView>, told: Seq<Seq<char>>, i: int)
    requires
        0 <= i < notices.len(),
        notices.len() <= told.len(),
    ensures
        notice_texts(notices, told).len() == notices.len(),
        notice_texts(notices, told)[i] == told[i] + notices[i].rest,
        notice_subjects(notices)[i] == notices[i].subject,
{
}

} // verus!
