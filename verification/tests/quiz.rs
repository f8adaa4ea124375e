use mslx::build_content_index;
use mslx::content::GitEntry;
use mslx::content::GitTree;
use mslx::export::build_question_bank;
use mslx::export::domain_progress;
use mslx::export::knowledge_check_url;
use mslx::quiz::answer_html;
use mslx::quiz::letter_for;
use mslx::quiz::render_quiz_xhtml;
use mslx::quiz::Choice;
use mslx::quiz::Question;
use mslx::quiz::Quiz;
use mslx::Book;
use mslx::ModuleNode;
use mslx::Part;

fn choice(content: &str, is_correct: bool, explanation: &str) -> Choice {
    Choice { content: content.into(), is_correct, explanation: explanation.into() }
}

fn question(content: &str, choices: Vec<Choice>) -> Question {
    Question { content: content.into(), choices }
}

fn module(uid: &str, title: &str, url: Option<&str>) -> ModuleNode {
    ModuleNode {
        uid: uid.into(),
        title: title.into(),
        url: url.map(|s| s.to_string()),
        duration_in_minutes: None,
        units: Vec::new(),
    }
}

fn part(uid: &str, title: &str, modules: Vec<ModuleNode>) -> Part {
    Part {
        uid: uid.into(),
        title: title.into(),
        url: None,
        icon_url: None,
        duration_in_minutes: None,
        modules,
    }
}

#[test]
fn letters_then_numbers() {
    assert_eq!(letter_for(0), "A");
    assert_eq!(letter_for(25), "Z");
    assert_eq!(letter_for(26), "27");
    assert_eq!(letter_for(99), "100");
}

#[test]
fn answer_names_letters_and_explanations() {
    let one = question("Q", vec![choice("a", false, "no"), choice("b", true, "because <it> is")]);
    assert_eq!(answer_html(&one), "Answer: B - because &lt;it&gt; is");
    let two = question(
        "Q",
        vec![choice("a", true, "first."), choice("b", true, ""), choice("c", true, "third.")],
    );
    assert_eq!(answer_html(&two), "Answers: A, B, C - first. third.");
    let bare = question("Q", vec![choice("a", true, "")]);
    assert_eq!(answer_html(&bare), "Answer: A");
    assert_eq!(answer_html(&question("Q", Vec::new())), "Answer: ");
}

#[test]
fn quiz_puts_the_answers_last() {
    let quiz = Quiz {
        title: "ignored".into(),
        questions: vec![
            question("Is 1 < 2?", vec![choice("Yes", true, "It is."), choice("No & no", false, "")]),
            question("Which?", vec![choice("That", false, "")]),
        ],
    };
    assert_eq!(
        render_quiz_xhtml(&quiz),
        "<p class=\"muted\">Self-check. Correct answers are in the answer key at the end of this section.</p>\n\
         <div class=\"quiz-q\">\n<p><strong>Q1.</strong> Is 1 &lt; 2?</p>\n\
         <ol class=\"quiz-choices\">\n  <li>Yes</li>\n  <li>No &amp; no</li>\n</ol>\n</div>\n\
         <div class=\"quiz-q\">\n<p><strong>Q2.</strong> Which?</p>\n\
         <ol class=\"quiz-choices\">\n  <li>That</li>\n</ol>\n</div>\n\
         <hr/>\n<h3 class=\"answer-key\">Answer key</h3>\n\
         <p class=\"answer\"><strong>Q1.</strong> Answer: A - It is.</p>\n\
         <p class=\"answer\"><strong>Q2.</strong> Answer: </p>\n"
    );
}

#[test]
fn questions_look_alike_whatever_is_correct() {
    let of = |correct: bool| Quiz {
        title: String::new(),
        questions: vec![question("Q", vec![choice("a", correct, "x"), choice("b", !correct, "")])],
    };
    let first = render_quiz_xhtml(&of(true));
    let second = render_quiz_xhtml(&of(false));
    assert_eq!(
        first.split("<hr/>").next().unwrap(),
        second.split("<hr/>").next().unwrap()
    );
    assert_ne!(first, second);
}

#[test]
fn knowledge_check_of_a_module() {
    let entry = |p: &str| GitEntry { path: p.into(), kind: "blob".into() };
    let index = build_content_index(&GitTree {
        tree: vec![
            entry("learn-pr/wwl/with-check/1-introduction.yml"),
            entry("learn-pr/wwl/with-check/9-knowledge-check.yml"),
            entry("learn-pr/wwl/without/1-introduction.yml"),
        ],
        truncated: false,
    });
    let at = |url: Option<&str>| knowledge_check_url(&index, &module("m", "M", url));
    assert_eq!(
        at(Some("https://learn.microsoft.com/training/modules/with-check/")).unwrap(),
        "https://raw.githubusercontent.com/MicrosoftDocs/learn/main/learn-pr/wwl/with-check/9-knowledge-check.yml"
    );
    assert_eq!(at(Some("https://learn.microsoft.com/training/modules/without/")), None);
    assert_eq!(at(Some("https://learn.microsoft.com/training/modules/unknown/")), None);
    assert_eq!(at(Some("https://learn.microsoft.com/training/")), None);
    assert_eq!(at(None), None);
}

#[test]
fn bank_is_tagged_by_domain() {
    let book = Book {
        cert_uid: "certification.x".into(),
        title: "X".into(),
        icon_url: None,
        parts: vec![
            part("p1", "One", vec![module("m1", "M1", None), module("m2", "M2", None)]),
            part("p2", "Two", vec![module("m3", "M3", None)]),
        ],
    };
    let quizzes = vec![
        vec![
            None,
            Some(Quiz {
                title: String::new(),
                questions: vec![
                    question("Q1", vec![choice("a", true, "e"), choice("b", true, "")]),
                    question("Q2", vec![choice("a", true, ""), choice("b", false, "n")]),
                ],
            }),
        ],
        vec![None],
    ];
    let bank = build_question_bank(&book, &quizzes, "2026-01-02");
    assert_eq!(bank.cert_uid, "certification.x");
    assert_eq!(bank.title, "X");
    assert_eq!(bank.generated, "2026-01-02");
    assert_eq!(bank.domains.len(), 2);
    let d = &bank.domains[0];
    assert_eq!(d.uid, "p1");
    assert_eq!(d.title, "One");
    assert_eq!(d.questions.len(), 2);
    assert_eq!(d.questions[0].module_uid, "m2");
    assert_eq!(d.questions[0].module_title, "M2");
    assert_eq!(d.questions[0].content, "Q1");
    assert!(d.questions[0].multi);
    assert!(!d.questions[1].multi);
    assert_eq!(d.questions[1].choices[1].content, "b");
    assert!(!d.questions[1].choices[1].correct);
    assert_eq!(d.questions[1].choices[1].explanation, "n");
    assert_eq!(domain_progress(d), "  One: 2 questions");
    assert!(bank.domains[1].questions.is_empty());
    assert_eq!(domain_progress(&bank.domains[1]), "  Two: 0 questions");
}
