//! Bulk export of knowledge-check questions: a flat question bank tagged by domain (learning
//! path). It is the data source for downstream study tools: one self-contained document.

use crate::content;
use crate::content::ContentIndex;
use crate::content::ModuleFilesView;
use crate::quiz::Choice;
use crate::quiz::ChoiceView;
use crate::quiz::Question;
use crate::quiz::QuestionView;
use crate::quiz::Quiz;
use crate::quiz::QuizView;
use crate::text;
use crate::tree::Book;
use crate::tree::BookView;
use crate::tree::ModuleNode;
use crate::tree::ModuleView;
use crate::tree::Part;
use crate::tree::PartView;
use vstd::prelude::*;
use vstd::string::*;

verus! {

broadcast use vstd::seq_lib::group_seq_properties;

/// A whole certification's knowledge-check questions, grouped by domain.
#[derive(Debug)]
pub struct QuestionBank {
    pub cert_uid: String,
    pub title: String,
    /// Generation date stamp (YYYY-MM-DD), for citation and freshness.
    pub generated: String,
    pub domains: Vec<Domain>,
}

/// What a [`QuestionBank`] holds.
pub struct QuestionBankView {
    pub cert_uid: Seq<char>,
    pub title: Seq<char>,
    pub generated: Seq<char>,
    pub domains: Seq<DomainView>,
}

impl DeepView for QuestionBank {
    type V = QuestionBankView;

    open spec fn deep_view(&self) -> QuestionBankView {
        QuestionBankView {
            cert_uid: self.cert_uid@,
            title: self.title@,
            generated: self.generated@,
            domains: self.domains.deep_view(),
        }
    }
}

/// One learning path is one exam domain.
#[derive(Debug)]
pub struct Domain {
    pub uid: String,
    pub title: String,
    pub questions: Vec<ExportQuestion>,
}

/// What a [`Domain`] holds.
pub struct DomainView {
    pub uid: Seq<char>,
    pub title: Seq<char>,
    pub questions: Seq<ExportQuestionView>,
}

impl DeepView for Domain {
    type V = DomainView;

    open spec fn deep_view(&self) -> DomainView {
        DomainView {
            uid: self.uid@,
            title: self.title@,
            questions: self.questions.deep_view(),
        }
    }
}

/// A question with the module it comes from.
#[derive(Debug)]
pub struct ExportQuestion {
    pub module_uid: String,
    pub module_title: String,
    pub content: String,
    /// True when more than one choice is correct (select all that apply).
    pub multi: bool,
    pub choices: Vec<ExportChoice>,
}

/// What an [`ExportQuestion`] holds.
pub struct ExportQuestionView {
    pub module_uid: Seq<char>,
    pub module_title: Seq<char>,
    pub content: Seq<char>,
    pub multi: bool,
    pub choices: Seq<ExportChoiceView>,
}

impl DeepView for ExportQuestion {
    type V = ExportQuestionView;

    open spec fn deep_view(&self) -> ExportQuestionView {
        ExportQuestionView {
            module_uid: self.module_uid@,
            module_title: self.module_title@,
            content: self.content@,
            multi: self.multi,
            choices: self.choices.deep_view(),
        }
    }
}

#[derive(Debug)]
pub struct ExportChoice {
    pub content: String,
    pub correct: bool,
    pub explanation: String,
}

/// What an [`ExportChoice`] holds.
pub struct ExportChoiceView {
    pub content: Seq<char>,
    pub correct: bool,
    pub explanation: Seq<char>,
}

impl DeepView for ExportChoice {
    type V = ExportChoiceView;

    open spec fn deep_view(&self) -> ExportChoiceView {
        ExportChoiceView {
            content: self.content@,
            correct: self.correct,
            explanation: self.explanation@,
        }
    }
}

// ---------------------------------------------------------------------------
// What to fetch
// ---------------------------------------------------------------------------

/// The raw URL of a module's knowledge check: nothing for a module without a usable page, without
/// files in the index or without a knowledge check.
pub open spec fn check_url(
    m: Map<Seq<char>, ModuleFilesView>,
    module: ModuleView,
) -> Option<Seq<char>> {
    match module.url {
        Some(url) => match content::module_slug(url) {
            Some(slug) => match (content::raw_base(m, slug), content::check_file(m, slug)) {
                (Some(base), Some(file)) => Some(base + "/"@ + file),
                _ => None,
            },
            None => None,
        },
        None => None,
    }
}

/// The raw URL of a module's knowledge check.
pub fn knowledge_check_url(index: &ContentIndex, module: &ModuleNode) -> (r: Option<String>)
    ensures
        r.deep_view() == check_url(index.modules@, module.deep_view()),
{
    let slug = match &module.url {
        Some(url) => match content::module_slug_from_url(url.as_str()) {
            Some(slug) => slug,
            None => {
                return None;
            },
        },
        None => {
            return None;
        },
    };
    let base = match index.module_raw_base(slug.as_str()) {
        Some(base) => base,
        None => {
            return None;
        },
    };
    match index.knowledge_check_yml(slug.as_str()) {
        Some(file) => {
            let mut url = base;
            url.append("/");
            url.append(file);
            Some(url)
        },
        None => None,
    }
}

// ---------------------------------------------------------------------------
// The bank
// ---------------------------------------------------------------------------

/// How many of the first `n` choices are correct.
pub open spec fn correct_count(choices: Seq<ChoiceView>, n: nat) -> nat
    decreases n,
{
    if n == 0 {
        0
    } else {
        correct_count(choices, (n - 1) as nat) + (if choices[n - 1].is_correct {
            1nat
        } else {
            0
        })
    }
}

pub open spec fn exported_choice(c: ChoiceView) -> ExportChoiceView {
    ExportChoiceView { content: c.content, correct: c.is_correct, explanation: c.explanation }
}

/// A question of a module as the bank holds it.
pub open spec fn exported(module: ModuleView, q: QuestionView) -> ExportQuestionView {
    ExportQuestionView {
        module_uid: module.uid,
        module_title: module.title,
        content: q.content,
        multi: correct_count(q.choices, q.choices.len()) > 1,
        choices: q.choices.map_values(|c: ChoiceView| exported_choice(c)),
    }
}

/// The questions of a module: none where its quiz could not be had.
pub open spec fn module_questions(
    module: ModuleView,
    quiz: Option<QuizView>,
) -> Seq<ExportQuestionView> {
    match quiz {
        Some(q) => q.questions.map_values(|x: QuestionView| exported(module, x)),
        None => Seq::empty(),
    }
}

/// The questions of the first `n` modules, one module after the other.
pub open spec fn domain_questions(
    modules: Seq<ModuleView>,
    quizzes: Seq<Option<QuizView>>,
    n: nat,
) -> Seq<ExportQuestionView>
    decreases n,
{
    if n == 0 {
        Seq::empty()
    } else {
        domain_questions(modules, quizzes, (n - 1) as nat) + module_questions(
            modules[n - 1],
            quizzes[n - 1],
        )
    }
}

/// A learning path as a domain.
pub open spec fn domain_of(part: PartView, quizzes: Seq<Option<QuizView>>) -> DomainView {
    DomainView {
        uid: part.uid,
        title: part.title,
        questions: domain_questions(part.modules, quizzes, part.modules.len()),
    }
}

/// The question bank of a book.
pub open spec fn bank_of(
    book: BookView,
    quizzes: Seq<Seq<Option<QuizView>>>,
    date_stamp: Seq<char>,
) -> QuestionBankView {
    QuestionBankView {
        cert_uid: book.cert_uid,
        title: book.title,
        generated: date_stamp,
        domains: Seq::new(book.parts.len(), |i: int| domain_of(book.parts[i], quizzes[i])),
    }
}

/// There is a place for a quiz for each module of the book.
pub open spec fn one_for_each(book: BookView, quizzes: Seq<Seq<Option<QuizView>>>) -> bool {
    &&& quizzes.len() == book.parts.len()
    &&& forall|i: int|
        0 <= i < quizzes.len() ==> (#[trigger] quizzes[i]).len() == book.parts[i].modules.len()
}

fn is_multi(choices: &Vec<Choice>) -> (r: bool)
    ensures
        r == (correct_count(choices.deep_view(), choices@.len()) > 1),
{
    let ghost all = choices.deep_view();
    let n: usize = choices.len();
    let mut count: usize = 0;
    for i in 0..n
        invariant
            n == choices@.len(),
            all == choices.deep_view(),
            count <= i,
            count == correct_count(all, i as nat),
    {
        assert(all[i as int] == choices@[i as int].deep_view());
        if choices[i].is_correct {
            count = count + 1;
        }
    }
    count > 1
}

fn export_question(module: &ModuleNode, q: &Question) -> (r: ExportQuestion)
    ensures
        r.deep_view() == exported(module.deep_view(), q.deep_view()),
{
    let ghost all = q.choices.deep_view();
    let ghost want = all.map_values(|c: ChoiceView| exported_choice(c));
    let n: usize = q.choices.len();
    let mut choices: Vec<ExportChoice> = Vec::new();
    for i in 0..n
        invariant
            n == q.choices@.len(),
            all == q.choices.deep_view(),
            want == all.map_values(|c: ChoiceView| exported_choice(c)),
            choices.deep_view() =~= want.take(i as int),
    {
        let c = &q.choices[i];
        assert(all[i as int] == c.deep_view());
        text::push_item(
            &mut choices,
            ExportChoice {
                content: c.content.clone(),
                correct: c.is_correct,
                explanation: c.explanation.clone(),
            },
        );
    }
    ExportQuestion {
        module_uid: module.uid.clone(),
        module_title: module.title.clone(),
        content: q.content.clone(),
        multi: is_multi(&q.choices),
        choices,
    }
}

/// The domain of a learning path, from the quizzes of its modules.
pub fn export_domain(part: &Part, quizzes: &Vec<Option<Quiz>>) -> (r: Domain)
    requires
        quizzes@.len() == part.modules@.len(),
    ensures
        r.deep_view() == domain_of(part.deep_view(), quizzes.deep_view()),
{
    let ghost modules = part.modules.deep_view();
    let ghost all = quizzes.deep_view();
    let n: usize = part.modules.len();
    let mut questions: Vec<ExportQuestion> = Vec::new();
    for i in 0..n
        invariant
            n == part.modules@.len(),
            n == quizzes@.len(),
            modules == part.modules.deep_view(),
            all == quizzes.deep_view(),
            questions.deep_view() =~= domain_questions(modules, all, i as nat),
    {
        let module = &part.modules[i];
        assert(modules[i as int] == module.deep_view());
        assert(all[i as int] == quizzes@[i as int].deep_view());
        if let Some(quiz) = &quizzes[i] {
            let ghost before = questions.deep_view();
            let ghost qs = quiz.questions.deep_view();
            let ghost want = qs.map_values(|x: QuestionView| exported(module.deep_view(), x));
            let k: usize = quiz.questions.len();
            for j in 0..k
                invariant
                    k == quiz.questions@.len(),
                    qs == quiz.questions.deep_view(),
                    want == qs.map_values(|x: QuestionView| exported(module.deep_view(), x)),
                    questions.deep_view() =~= before + want.take(j as int),
            {
                assert(qs[j as int] == quiz.questions@[j as int].deep_view());
                text::push_item(&mut questions, export_question(module, &quiz.questions[j]));
            }
            assert(want.take(k as int) =~= want);
        }
    }
    Domain { uid: part.uid.clone(), title: part.title.clone(), questions }
}

/// Builds the question bank of a book from the quizzes of its modules, part by part. A module
/// with no knowledge check, or whose knowledge check could not be fetched or parsed, has none:
/// one gap never sinks the whole bank.
pub fn build_question_bank(
    book: &Book,
    quizzes: &Vec<Vec<Option<Quiz>>>,
    date_stamp: &str,
) -> (r: QuestionBank)
    requires
        one_for_each(book.deep_view(), quizzes.deep_view()),
    ensures
        r.deep_view() == bank_of(book.deep_view(), quizzes.deep_view(), date_stamp@),
{
    let ghost b = book.deep_view();
    let ghost all = quizzes.deep_view();
    let ghost want = bank_of(b, all, date_stamp@).domains;
    let n: usize = book.parts.len();
    let mut domains: Vec<Domain> = Vec::new();
    for i in 0..n
        invariant
            n == book.parts@.len(),
            n == quizzes@.len(),
            b == book.deep_view(),
            all == quizzes.deep_view(),
            one_for_each(b, all),
            want == bank_of(b, all, date_stamp@).domains,
            domains.deep_view() =~= want.take(i as int),
    {
        assert(b.parts[i as int] == book.parts@[i as int].deep_view());
        assert(all[i as int] == quizzes@[i as int].deep_view());
        assert(all[i as int].len() == b.parts[i as int].modules.len());
        text::push_item(&mut domains, export_domain(&book.parts[i], &quizzes[i]));
    }
    assert(domains.deep_view() =~= want);
    QuestionBank {
        cert_uid: book.cert_uid.clone(),
        title: book.title.clone(),
        generated: date_stamp.to_owned(),
        domains,
    }
}

/// What is reported of a domain.
pub fn domain_progress(domain: &Domain) -> (r: String)
    ensures
        r@ == "  "@ + domain.title@ + ": "@ + text::decimal(domain.questions@.len())
            + " questions"@,
{
    let mut s = "  ".to_owned();
    s.append(domain.title.as_str());
    s.append(": ");
    s.append(text::decimal_text(domain.questions.len() as u64).as_str());
    s.append(" questions");
    s
}

/// Every learning path is one domain, in the book's order, whatever quizzes could be had.
pub proof fn law_a_domain_for_each_part(
    book: BookView,
    quizzes: Seq<Seq<Option<QuizView>>>,
    date_stamp: Seq<char>,
    i: int,
)
    requires
        0 <= i < book.parts.len(),
    ensures
        bank_of(book, quizzes, date_stamp).domains.len() == book.parts.len(),
        bank_of(book, quizzes, date_stamp).domains[i].uid == book.parts[i].uid,
        bank_of(book, quizzes, date_stamp).domains[i].title == book.parts[i].title,
{
}

/// A module without a quiz adds nothing to its domain, and takes nothing from the other modules:
/// the questions of a module with a quiz are those of the quiz, in its order, under the module's
/// name.
pub proof fn law_a_gap_sinks_nothing(
    modules: Seq<ModuleView>,
    quizzes: Seq<Option<QuizView>>,
    n: nat,
)
    requires
        0 < n <= modules.len(),
        quizzes.len() == modules.len(),
    ensures
        quizzes[n - 1] is None ==> domain_questions(modules, quizzes, n) == domain_questions(
            modules,
            quizzes,
            (n - 1) as nat,
        ),
        quizzes[n - 1] matches Some(q) ==> domain_questions(modules, quizzes, n).len()
            == domain_questions(modules, quizzes, (n - 1) as nat).len() + q.questions.len() && (
        forall|i: int|
            0 <= i < q.questions.len() ==> #[trigger] domain_questions(
                modules,
                quizzes,
                n,
            )[domain_questions(modules, quizzes, (n - 1) as nat).len() + i] == exported(
                modules[n - 1],
                q.questions[i],
            )),
{
}

/// The bank says whose questions it holds and when it was made.
pub proof fn law_bank_names_its_book(
    book: BookView,
    quizzes: Seq<Seq<Option<QuizView>>>,
    date_stamp: Seq<char>,
)
    ensures
        bank_of(book, quizzes, date_stamp).cert_uid == book.cert_uid,
        bank_of(book, quizzes, date_stamp).title == book.title,
        bank_of(book, quizzes, date_stamp).generated == date_stamp,
{
}

proof fn lemma_correct_count(choices: Seq<ChoiceView>, n: nat)
    requires
        n <= choices.len(),
    ensures
        correct_count(choices, n) >= 1 <==> exists|a: int|
            0 <= a < n && (#[trigger] choices[a]).is_correct,
        correct_count(choices, n) > 1 <==> exists|a: int, b: int|
            0 <= a < b < n && (#[trigger] choices[a]).is_correct && (
            #[trigger] choices[b]).is_correct,
    decreases n,
{
    if n > 0 {
        let k = (n - 1) as nat;
        lemma_correct_count(choices, k);
        if choices[n - 1].is_correct {
            if correct_count(choices, k) >= 1 {
                let a = choose|a: int| 0 <= a < k && (#[trigger] choices[a]).is_correct;
                assert(choices[a].is_correct && choices[n - 1].is_correct);
            }
        }
    }
}

/// An exported question asks what the quiz asks, under its module's name, with the same choices:
/// choice by choice the text, the explanation and whether it is correct. It is a question with
/// several answers exactly where two of its choices are correct.
pub proof fn law_an_exported_question_is_the_question(module: ModuleView, q: QuestionView)
    ensures
        exported(module, q).module_uid == module.uid,
        exported(module, q).module_title == module.title,
        exported(module, q).content == q.content,
        exported(module, q).choices.len() == q.choices.len(),
        forall|j: int|
            0 <= j < q.choices.len() ==> (#[trigger] exported(module, q).choices[j]).correct
                == q.choices[j].is_correct && exported(module, q).choices[j].content
                == q.choices[j].content && exported(module, q).choices[j].explanation
                == q.choices[j].explanation,
        exported(module, q).multi <==> exists|a: int, b: int|
            0 <= a < b < q.choices.len() && (#[trigger] exported(module, q).choices[a]).correct && (
            #[trigger] exported(module, q).choices[b]).correct,
{
    lemma_correct_count(q.choices, q.choices.len());
    let e = exported(module, q);
    assert forall|j: int| 0 <= j < q.choices.len() implies (#[trigger] e.choices[j]).correct
        == q.choices[j].is_correct by {}
    if e.multi {
        let (a, b) = choose|a: int, b: int|
            0 <= a < b < q.choices.len() && (#[trigger] q.choices[a]).is_correct && (
            #[trigger] q.choices[b]).is_correct;
        assert(e.choices[a].correct && e.choices[b].correct);
    }
    if exists|a: int, b: int|
        0 <= a < b < q.choices.len() && (#[trigger] e.choices[a]).correct && (
        #[trigger] e.choices[b]).correct {
        let (a, b) = choose|a: int, b: int|
            0 <= a < b < q.choices.len() && (#[trigger] e.choices[a]).correct && (
            #[trigger] e.choices[b]).correct;
        assert(q.choices[a].is_correct && q.choices[b].is_correct);
    }
}

/// How many questions the first `n` quizzes hold.
pub open spec fn questions_before(quizzes: Seq<Option<QuizView>>, n: nat) -> nat
    decreases n,
{
    if n == 0 {
        0
    } else {
        questions_before(quizzes, (n - 1) as nat) + (match quizzes[n - 1] {
            Some(q) => q.questions.len(),
            None => 0,
        })
    }
}

proof fn lemma_domain_questions(
    modules: Seq<ModuleView>,
    quizzes: Seq<Option<QuizView>>,
    n: nat,
    m: int,
    k: int,
)
    requires
        0 <= m < n,
        quizzes[m] is Some,
        0 <= k < quizzes[m]->Some_0.questions.len(),
    ensures
        domain_questions(modules, quizzes, n).len() == questions_before(quizzes, n),
        questions_before(quizzes, m as nat) + k < questions_before(quizzes, n),
        domain_questions(modules, quizzes, n)[questions_before(quizzes, m as nat) + k] == exported(
            modules[m],
            quizzes[m]->Some_0.questions[k],
        ),
    decreases n,
{
    lemma_domain_len(modules, quizzes, n);
    lemma_domain_len(modules, quizzes, (n - 1) as nat);
    let before = domain_questions(modules, quizzes, (n - 1) as nat);
    if m < n - 1 {
        lemma_domain_questions(modules, quizzes, (n - 1) as nat, m, k);
    } else {
        let added = module_questions(modules[m], quizzes[m]);
        assert((before + added)[before.len() + k] == added[k]);
    }
}

proof fn lemma_domain_len(modules: Seq<ModuleView>, quizzes: Seq<Option<QuizView>>, n: nat)
    ensures
        domain_questions(modules, quizzes, n).len() == questions_before(quizzes, n),
    decreases n,
{
    if n > 0 {
        lemma_domain_len(modules, quizzes, (n - 1) as nat);
    }
}

/// The bank holds every question of every quiz of the book and no other, in the book's order:
/// domain by domain, module by module, in the order of each quiz. Each has the quiz's text and
/// choices and says of each choice whether it is correct.
pub proof fn law_every_question_is_in_the_bank(
    book: BookView,
    quizzes: Seq<Seq<Option<QuizView>>>,
    date_stamp: Seq<char>,
    p: int,
    m: int,
    k: int,
)
    requires
        one_for_each(book, quizzes),
        0 <= p < book.parts.len(),
        0 <= m < book.parts[p].modules.len(),
        quizzes[p][m] is Some,
        0 <= k < quizzes[p][m]->Some_0.questions.len(),
    ensures
        ({
            let questions = bank_of(book, quizzes, date_stamp).domains[p].questions;
            let at = questions_before(quizzes[p], m as nat) + k;
            let q = quizzes[p][m]->Some_0.questions[k];
            &&& questions.len() == questions_before(quizzes[p], quizzes[p].len())
            &&& at < questions.len()
            &&& questions[at].module_uid == book.parts[p].modules[m].uid
            &&& questions[at].module_title == book.parts[p].modules[m].title
            &&& questions[at].content == q.content
            &&& questions[at].choices.len() == q.choices.len()
            &&& forall|j: int|
                0 <= j < q.choices.len() ==> (#[trigger] questions[at].choices[j]).correct
                    == q.choices[j].is_correct && questions[at].choices[j].content
                    == q.choices[j].content && questions[at].choices[j].explanation
                    == q.choices[j].explanation
        }),
{
    let modules = book.parts[p].modules;
    assert(quizzes[p].len() == modules.len());
    lemma_domain_questions(modules, quizzes[p], modules.len(), m, k);
    law_an_exported_question_is_the_question(modules[m], quizzes[p][m]->Some_0.questions[k]);
}

/// The knowledge check of a module is fetched from the module's folder: the file is one of those
/// directly in it, named after what it is.
pub proof fn law_knowledge_check_is_in_the_modules_folder(
    m: Map<Seq<char>, ModuleFilesView>,
    module: ModuleView,
)
    ensures
        check_url(m, module) matches Some(url) ==> module.url is Some && {
            let slug = content::module_slug(module.url->Some_0);
            &&& slug is Some
            &&& m.dom().contains(slug->Some_0)
            &&& exists|f: Seq<char>|
                m[slug->Some_0].units_yml.contains(f) && text::has_suffix(
                    f,
                    "knowledge-check.yml"@,
                ) && url == #[trigger] (
                "https://raw.githubusercontent.com/MicrosoftDocs/learn/main/"@
                    + m[slug->Some_0].folder + "/"@ + f)
        },
{
    if let Some(url) = check_url(m, module) {
        let slug = content::module_slug(module.url->Some_0)->Some_0;
        content::law_raw_addresses(m, slug, Seq::empty());
        content::law_knowledge_check_file(m, slug);
        let f = content::check_file(m, slug)->Some_0;
        assert(url == "https://raw.githubusercontent.com/MicrosoftDocs/learn/main/"@
            + m[slug].folder + "/"@ + f);
    }
}

} // verus!
