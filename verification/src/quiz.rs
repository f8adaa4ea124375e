//! Knowledge-check quizzes and how a book shows them: the questions first, then a separate answer
//! key.

use crate::epub;
use crate::text;
use vstd::prelude::*;
use vstd::string::*;

verus! {

broadcast use vstd::seq_lib::group_seq_properties;

/// A knowledge check.
#[derive(Debug, Clone)]
pub struct Quiz {
    pub title: String,
    pub questions: Vec<Question>,
}

/// What a [`Quiz`] holds.
pub struct QuizView {
    pub title: Seq<char>,
    pub questions: Seq<QuestionView>,
}

impl DeepView for Quiz {
    type V = QuizView;

    open spec fn deep_view(&self) -> QuizView {
        QuizView { title: self.title@, questions: self.questions.deep_view() }
    }
}

/// A question and the choices it offers.
#[derive(Debug, Clone)]
pub struct Question {
    pub content: String,
    pub choices: Vec<Choice>,
}

/// What a [`Question`] holds.
pub struct QuestionView {
    pub content: Seq<char>,
    pub choices: Seq<ChoiceView>,
}

impl DeepView for Question {
    type V = QuestionView;

    open spec fn deep_view(&self) -> QuestionView {
        QuestionView { content: self.content@, choices: self.choices.deep_view() }
    }
}

/// A choice, whether it is correct, and why.
#[derive(Debug, Clone)]
pub struct Choice {
    pub content: String,
    pub is_correct: bool,
    pub explanation: String,
}

/// What a [`Choice`] holds.
pub struct ChoiceView {
    pub content: Seq<char>,
    pub is_correct: bool,
    pub explanation: Seq<char>,
}

impl DeepView for Choice {
    type V = ChoiceView;

    open spec fn deep_view(&self) -> ChoiceView {
        ChoiceView {
            content: self.content@,
            is_correct: self.is_correct,
            explanation: self.explanation@,
        }
    }
}

// ---------------------------------------------------------------------------
// Questions
// ---------------------------------------------------------------------------

pub open spec fn choices_text(choices: Seq<ChoiceView>, n: nat) -> Seq<char>
    decreases n,
{
    if n == 0 {
        Seq::empty()
    } else {
        choices_text(choices, (n - 1) as nat) + ("  <li>"@ + epub::escaped(choices[n - 1].content)
            + "</li>\n"@)
    }
}

pub open spec fn question_text(q: QuestionView, number: nat) -> Seq<char> {
    "<div class=\"quiz-q\">\n<p><strong>Q"@ + text::decimal(number) + ".</strong> "@
        + epub::escaped(q.content) + "</p>\n"@ + "<ol class=\"quiz-choices\">\n"@ + choices_text(
        q.choices,
        q.choices.len(),
    ) + "</ol>\n"@ + "</div>\n"@
}

pub open spec fn questions_text(questions: Seq<QuestionView>, n: nat) -> Seq<char>
    decreases n,
{
    if n == 0 {
        Seq::empty()
    } else {
        questions_text(questions, (n - 1) as nat) + question_text(questions[n - 1], n)
    }
}

fn choices_xhtml(choices: &Vec<Choice>) -> (r: String)
    ensures
        r@ == choices_text(choices.deep_view(), choices@.len()),
{
    let ghost all = choices.deep_view();
    let n: usize = choices.len();
    let mut s = String::new();
    for i in 0..n
        invariant
            n == choices@.len(),
            all == choices.deep_view(),
            s@ == choices_text(all, i as nat),
    {
        assert(all[i as int] == choices@[i as int].deep_view());
        let mut item = "  <li>".to_owned();
        item.append(epub::esc(choices[i].content.as_str()).as_str());
        item.append("</li>\n");
        s.append(item.as_str());
    }
    s
}

fn question_xhtml(q: &Question, number: u64) -> (r: String)
    ensures
        r@ == question_text(q.deep_view(), number as nat),
{
    let mut s = "<div class=\"quiz-q\">\n<p><strong>Q".to_owned();
    s.append(text::decimal_text(number).as_str());
    s.append(".</strong> ");
    s.append(epub::esc(q.content.as_str()).as_str());
    s.append("</p>\n");
    s.append("<ol class=\"quiz-choices\">\n");
    s.append(choices_xhtml(&q.choices).as_str());
    s.append("</ol>\n");
    s.append("</div>\n");
    s
}

// ---------------------------------------------------------------------------
// Answers
// ---------------------------------------------------------------------------

/// The letter of a choice in a lettered list; behind the alphabet, its number.
pub open spec fn letter(idx: nat) -> Seq<char> {
    if idx < 26 {
        seq![('A' as u32 + idx) as char]
    } else {
        text::decimal(idx + 1)
    }
}

/// The letter of a choice.
pub fn letter_for(idx: usize) -> (r: String)
    requires
        idx < usize::MAX,
    ensures
        r@ == letter(idx as nat),
{
    if idx < 26 {
        let c: char = (65u8 + idx as u8) as char;
        let mut s = String::new();
        s.push(c);
        assert(s@ =~= letter(idx as nat));
        s
    } else {
        text::decimal_text(idx as u64 + 1)
    }
}

/// The letters of the correct choices among the first `n`.
pub open spec fn correct_letters(choices: Seq<ChoiceView>, n: nat) -> Seq<Seq<char>>
    decreases n,
{
    if n == 0 {
        Seq::empty()
    } else {
        let before = correct_letters(choices, (n - 1) as nat);
        if choices[n - 1].is_correct {
            before.push(letter((n - 1) as nat))
        } else {
            before
        }
    }
}

/// The explanations of the correct choices among the first `n`, without empty ones.
pub open spec fn correct_explanations(choices: Seq<ChoiceView>, n: nat) -> Seq<Seq<char>>
    decreases n,
{
    if n == 0 {
        Seq::empty()
    } else {
        let before = correct_explanations(choices, (n - 1) as nat);
        if choices[n - 1].is_correct && choices[n - 1].explanation.len() > 0 {
            before.push(choices[n - 1].explanation)
        } else {
            before
        }
    }
}

/// The answer to a question, with its explanation where there is one.
pub open spec fn answer_text(q: QuestionView) -> Seq<char> {
    let letters = correct_letters(q.choices, q.choices.len());
    let why = text::join(correct_explanations(q.choices, q.choices.len()), " "@);
    let answer = (if letters.len() > 1 {
        "Answers"@
    } else {
        "Answer"@
    }) + ": "@ + epub::escaped(text::join(letters, ", "@));
    if why.len() == 0 {
        answer
    } else {
        answer + " - "@ + epub::escaped(why)
    }
}

/// Builds the (escaped) "Answer: B - explanation" string for a question, using letters that match
/// the lettered choice list.
pub fn answer_html(q: &Question) -> (r: String)
    ensures
        r@ == answer_text(q.deep_view()),
{
    let ghost all = q.choices.deep_view();
    let n: usize = q.choices.len();
    let mut letters: Vec<String> = Vec::new();
    let mut expls: Vec<String> = Vec::new();
    for i in 0..n
        invariant
            n == q.choices@.len(),
            all == q.choices.deep_view(),
            letters.deep_view() =~= correct_letters(all, i as nat),
            expls.deep_view() =~= correct_explanations(all, i as nat),
    {
        let c = &q.choices[i];
        assert(all[i as int] == c.deep_view());
        if c.is_correct {
            text::push_item(&mut letters, letter_for(i));
            if !c.explanation.as_str().is_empty() {
                text::push_item(&mut expls, c.explanation.clone());
            }
        }
    }
    let mut s = if letters.len() > 1 {
        "Answers".to_owned()
    } else {
        "Answer".to_owned()
    };
    s.append(": ");
    s.append(epub::esc(text::join_texts(&letters, ", ").as_str()).as_str());
    let why = text::join_texts(&expls, " ");
    if !why.as_str().is_empty() {
        s.append(" - ");
        s.append(epub::esc(why.as_str()).as_str());
    }
    s
}

pub open spec fn answers_text(questions: Seq<QuestionView>, n: nat) -> Seq<char>
    decreases n,
{
    if n == 0 {
        Seq::empty()
    } else {
        answers_text(questions, (n - 1) as nat) + ("<p class=\"answer\"><strong>Q"@
            + text::decimal(n) + ".</strong> "@ + answer_text(questions[n - 1]) + "</p>\n"@)
    }
}

// ---------------------------------------------------------------------------
// A whole quiz
// ---------------------------------------------------------------------------

/// What a quiz begins with.
pub const QUIZ_INTRO: &'static str =
    "<p class=\"muted\">Self-check. Correct answers are in the answer key at the end of this section.</p>\n";

/// A quiz as a book shows it.
pub open spec fn quiz_text(q: QuizView) -> Seq<char> {
    QUIZ_INTRO@ + questions_text(q.questions, q.questions.len())
        + "<hr/>\n<h3 class=\"answer-key\">Answer key</h3>\n"@ + answers_text(
        q.questions,
        q.questions.len(),
    )
}

/// Renders a quiz: questions first, then a separate "Answer key" section at the end of the unit.
/// Plain text placement works in every reader, unlike a CSS transform, which many ignore.
pub fn render_quiz_xhtml(quiz: &Quiz) -> (r: String)
    ensures
        r@ == quiz_text(quiz.deep_view()),
{
    let ghost all = quiz.questions.deep_view();
    let n: usize = quiz.questions.len();
    let mut questions = String::new();
    for i in 0..n
        invariant
            n == quiz.questions@.len(),
            all == quiz.questions.deep_view(),
            questions@ == questions_text(all, i as nat),
    {
        assert(all[i as int] == quiz.questions@[i as int].deep_view());
        questions.append(question_xhtml(&quiz.questions[i], i as u64 + 1).as_str());
    }
    let mut answers = String::new();
    for i in 0..n
        invariant
            n == quiz.questions@.len(),
            all == quiz.questions.deep_view(),
            answers@ == answers_text(all, i as nat),
    {
        assert(all[i as int] == quiz.questions@[i as int].deep_view());
        let mut line = "<p class=\"answer\"><strong>Q".to_owned();
        line.append(text::decimal_text(i as u64 + 1).as_str());
        line.append(".</strong> ");
        line.append(answer_html(&quiz.questions[i]).as_str());
        line.append("</p>\n");
        answers.append(line.as_str());
    }
    let mut s = QUIZ_INTRO.to_owned();
    s.append(questions.as_str());
    s.append("<hr/>\n<h3 class=\"answer-key\">Answer key</h3>\n");
    s.append(answers.as_str());
    s
}

/// Two questions ask the same, whatever is correct.
pub open spec fn ask_the_same(a: QuestionView, b: QuestionView) -> bool {
    &&& a.content == b.content
    &&& a.choices.len() == b.choices.len()
    &&& forall|i: int|
        0 <= i < a.choices.len() ==> (#[trigger] a.choices[i]).content == b.choices[i].content
}

/// The questions do not give the answers away: what stands above the answer key is the same
/// whichever choices are correct, and whatever explains them.
pub proof fn law_questions_keep_the_secret(a: Seq<QuestionView>, b: Seq<QuestionView>, n: nat)
    requires
        n <= a.len(),
        a.len() == b.len(),
        forall|i: int| 0 <= i < a.len() ==> ask_the_same(#[trigger] a[i], b[i]),
    ensures
        questions_text(a, n) == questions_text(b, n),
    decreases n,
{
    if n > 0 {
        law_questions_keep_the_secret(a, b, (n - 1) as nat);
        assert(ask_the_same(a[n - 1], b[n - 1]));
        lemma_same_choices(a[n - 1].choices, b[n - 1].choices, a[n - 1].choices.len());
    }
}

proof fn lemma_same_choices(a: Seq<ChoiceView>, b: Seq<ChoiceView>, n: nat)
    requires
        n <= a.len(),
        a.len() == b.len(),
        forall|i: int| 0 <= i < a.len() ==> (#[trigger] a[i]).content == b[i].content,
    ensures
        choices_text(a, n) == choices_text(b, n),
    decreases n,
{
    if n > 0 {
        lemma_same_choices(a, b, (n - 1) as nat);
        assert(a[n - 1].content == b[n - 1].content);
    }
}

proof fn lemma_choices_take(a: Seq<ChoiceView>, b: Seq<ChoiceView>, n: nat)
    requires
        n <= a.len(),
    ensures
        choices_text(a + b, n) == choices_text(a, n),
    decreases n,
{
    if n > 0 {
        lemma_choices_take(a, b, (n - 1) as nat);
    }
}

proof fn lemma_choices_cat(a: Seq<ChoiceView>, b: Seq<ChoiceView>, n: nat)
    requires
        n <= b.len(),
    ensures
        choices_text(a + b, a.len() + n) == choices_text(a, a.len()) + choices_text(b, n),
    decreases n,
{
    if n == 0 {
        lemma_choices_take(a, b, a.len());
        assert(choices_text(a, a.len()) + choices_text(b, 0) =~= choices_text(a, a.len()));
    } else {
        lemma_choices_cat(a, b, (n - 1) as nat);
        assert((a + b)[a.len() + n - 1] == b[n - 1]);
        text::lemma_cat_assoc(
            choices_text(a, a.len()),
            choices_text(b, (n - 1) as nat),
            "  <li>"@ + epub::escaped(b[n - 1].content) + "</li>\n"@,
        );
    }
}

/// The choices of a question are listed in their order, each once: so the letters of the list are
/// those of the answer key.
pub proof fn law_choices_are_in_order(a: Seq<ChoiceView>, b: Seq<ChoiceView>, c: ChoiceView)
    ensures
        choices_text(a + b, (a + b).len()) == choices_text(a, a.len()) + choices_text(b, b.len()),
        choices_text(seq![c], 1) == "  <li>"@ + epub::escaped(c.content) + "</li>\n"@,
{
    lemma_choices_cat(a, b, b.len());
    reveal_with_fuel(choices_text, 2);
    assert(choices_text(seq![c], 1) =~= "  <li>"@ + epub::escaped(c.content) + "</li>\n"@);
}

/// A question under its number with its choices.
spec fn asked(q: QuestionView, number: nat) -> Seq<char> {
    "<p><strong>Q"@ + text::decimal(number) + ".</strong> "@ + epub::escaped(q.content)
        + "</p>\n"@ + "<ol class=\"quiz-choices\">\n"@ + choices_text(
        q.choices,
        q.choices.len(),
    ) + "</ol>\n"@
}

/// The answer to a question under its number.
spec fn answered(q: QuestionView, number: nat) -> Seq<char> {
    "<strong>Q"@ + text::decimal(number) + ".</strong> "@ + answer_text(q) + "</p>\n"@
}

proof fn lemma_question_shown(questions: Seq<QuestionView>, n: nat, i: int)
    requires
        0 <= i < n <= questions.len(),
    ensures
        text::contains_text(
            questions_text(questions, n),
            asked(questions[i], (i + 1) as nat),
        ),
        text::contains_text(
            answers_text(questions, n),
            answered(questions[i], (i + 1) as nat),
        ),
    decreases n,
{
    let q = questions[n - 1];
    let w = asked(questions[i], (i + 1) as nat);
    let v = answered(questions[i], (i + 1) as nat);
    let before = questions_text(questions, (n - 1) as nat);
    let keys = answers_text(questions, (n - 1) as nat);
    let line = "<p class=\"answer\"><strong>Q"@ + text::decimal(n) + ".</strong> "@ + answer_text(q)
        + "</p>\n"@;
    text::lemma_contains_cat(before, question_text(q, n), w);
    text::lemma_contains_cat(keys, line, v);
    if i < n - 1 {
        lemma_question_shown(questions, (n - 1) as nat, i);
    } else {
        lemma_question_has(q, n, w);
        lemma_answer_has(q, n);
    }
}

proof fn lemma_answer_has(q: QuestionView, n: nat)
    ensures
        text::contains_text(
            "<p class=\"answer\"><strong>Q"@ + text::decimal(n) + ".</strong> "@ + answer_text(q)
                + "</p>\n"@,
            answered(q, n),
        ),
{
    reveal_strlit("<p class=\"answer\"><strong>Q");
    reveal_strlit("<p class=\"answer\">");
    reveal_strlit("<strong>Q");
    let p = "<p class=\"answer\">"@;
    let q1 = "<strong>Q"@;
    let d = text::decimal(n);
    assert("<p class=\"answer\"><strong>Q"@ =~= p + q1);
    text::lemma_cat_assoc(p, q1, d);
    text::lemma_cat_assoc(p, q1 + d, ".</strong> "@);
    text::lemma_cat_assoc(p, q1 + d + ".</strong> "@, answer_text(q));
    text::lemma_cat_assoc(p, q1 + d + ".</strong> "@ + answer_text(q), "</p>\n"@);
    text::lemma_contains_cat(p, answered(q, n), answered(q, n));
}

proof fn lemma_question_has(q: QuestionView, n: nat, w: Seq<char>)
    requires
        w == "<p><strong>Q"@ + text::decimal(n) + ".</strong> "@ + epub::escaped(q.content)
            + "</p>\n"@ + "<ol class=\"quiz-choices\">\n"@ + choices_text(
            q.choices,
            q.choices.len(),
        ) + "</ol>\n"@,
    ensures
        text::contains_text(question_text(q, n), w),
{
    reveal_strlit("<div class=\"quiz-q\">\n<p><strong>Q");
    reveal_strlit("<div class=\"quiz-q\">\n");
    reveal_strlit("<p><strong>Q");
    let front = "<div class=\"quiz-q\">\n"@;
    assert("<div class=\"quiz-q\">\n<p><strong>Q"@ =~= front + "<p><strong>Q"@);
    assert(question_text(q, n) =~= front + w + "</div>\n"@);
    text::lemma_contains_cat(front, w, w);
    text::lemma_contains_cat(front + w, "</div>\n"@, w);
}

/// A quiz shows every question under its number with all its choices, and behind the questions,
/// in the answer key, its answer under the same number.
pub proof fn law_every_question_is_asked_and_answered(q: QuizView, i: int)
    requires
        0 <= i < q.questions.len(),
    ensures
        text::contains_text(
            quiz_text(q),
            "<p><strong>Q"@ + text::decimal((i + 1) as nat) + ".</strong> "@ + epub::escaped(
                q.questions[i].content,
            ) + "</p>\n"@ + "<ol class=\"quiz-choices\">\n"@ + choices_text(
                q.questions[i].choices,
                q.questions[i].choices.len(),
            ) + "</ol>\n"@,
        ),
        text::contains_text(
            quiz_text(q),
            "<strong>Q"@ + text::decimal((i + 1) as nat) + ".</strong> "@ + answer_text(
                q.questions[i],
            ) + "</p>\n"@,
        ),
        text::has_suffix(
            quiz_text(q),
            "Answer key</h3>\n"@ + answers_text(q.questions, q.questions.len()),
        ),
{
    let n = q.questions.len();
    lemma_question_shown(q.questions, n, i);
    let a = questions_text(q.questions, n);
    let k = "<hr/>\n<h3 class=\"answer-key\">Answer key</h3>\n"@;
    let b = answers_text(q.questions, n);
    let w = "<p><strong>Q"@ + text::decimal((i + 1) as nat) + ".</strong> "@ + epub::escaped(
        q.questions[i].content,
    ) + "</p>\n"@ + "<ol class=\"quiz-choices\">\n"@ + choices_text(
        q.questions[i].choices,
        q.questions[i].choices.len(),
    ) + "</ol>\n"@;
    let v = "<strong>Q"@ + text::decimal((i + 1) as nat) + ".</strong> "@ + answer_text(
        q.questions[i],
    ) + "</p>\n"@;
    text::lemma_contains_cat(QUIZ_INTRO@, a, w);
    text::lemma_contains_cat(QUIZ_INTRO@ + a, k, w);
    text::lemma_contains_cat(QUIZ_INTRO@ + a + k, b, w);
    text::lemma_contains_cat(QUIZ_INTRO@ + a + k, b, v);
    reveal_strlit("<hr/>\n<h3 class=\"answer-key\">Answer key</h3>\n");
    reveal_strlit("Answer key</h3>\n");
    reveal_strlit("<hr/>\n<h3 class=\"answer-key\">");
    assert(k =~= "<hr/>\n<h3 class=\"answer-key\">"@ + "Answer key</h3>\n"@);
    let all = quiz_text(q);
    let tail = "Answer key</h3>\n"@ + b;
    assert(all.subrange(all.len() - tail.len(), all.len() as int) =~= tail);
}

/// No two choices have one letter.
pub proof fn law_letters_differ(i: nat, j: nat)
    requires
        letter(i) == letter(j),
    ensures
        i == j,
{
    text::lemma_decimal(i + 1);
    text::lemma_decimal(j + 1);
    assert(i < 26 ==> letter(i)[0] == ('A' as u32 + i) as char);
    assert(j < 26 ==> letter(j)[0] == ('A' as u32 + j) as char);
    if i < 26 && j >= 26 {
        assert(text::is_digit(text::decimal(j + 1)[0]));
    }
    if j < 26 && i >= 26 {
        assert(text::is_digit(text::decimal(i + 1)[0]));
    }
}

/// The answer key names the letters of the correct choices and of no others.
pub proof fn law_answer_names_the_correct(choices: Seq<ChoiceView>, n: nat, j: int)
    requires
        n <= choices.len(),
        0 <= j < n,
    ensures
        correct_letters(choices, n).contains(letter(j as nat)) <==> choices[j].is_correct,
{
    lemma_correct_letters(choices, n, j);
}

proof fn lemma_correct_letters(choices: Seq<ChoiceView>, n: nat, j: int)
    requires
        n <= choices.len(),
        0 <= j < choices.len(),
    ensures
        correct_letters(choices, n).contains(letter(j as nat)) <==> j < n && choices[j].is_correct,
    decreases n,
{
    if n > 0 {
        let before = correct_letters(choices, (n - 1) as nat);
        let now = correct_letters(choices, n);
        let x = letter(j as nat);
        lemma_correct_letters(choices, (n - 1) as nat, j);
        if before.contains(x) {
            let k = choose|k: int| 0 <= k < before.len() && before[k] == x;
            assert(now[k] == x);
        }
        if j == n - 1 && choices[j].is_correct {
            assert(now[before.len() as int] == x);
        }
        if now.contains(x) && !before.contains(x) {
            let k = choose|k: int| 0 <= k < now.len() && now[k] == x;
            if k < before.len() {
                assert(before[k] == x);
            }
            law_letters_differ(j as nat, (n - 1) as nat);
        }
    }
}

proof fn lemma_one_correct(choices: Seq<ChoiceView>, n: nat, j: int)
    requires
        n <= choices.len(),
        0 <= j < choices.len(),
        forall|i: int| 0 <= i < choices.len() ==> ((#[trigger] choices[i]).is_correct <==> i == j),
    ensures
        correct_letters(choices, n) == (if j < n {
            seq![letter(j as nat)]
        } else {
            Seq::empty()
        }),
        correct_explanations(choices, n) == (if j < n && choices[j].explanation.len() > 0 {
            seq![choices[j].explanation]
        } else {
            Seq::empty()
        }),
    decreases n,
{
    if n > 0 {
        lemma_one_correct(choices, (n - 1) as nat, j);
        assert(correct_letters(choices, n) =~= (if j < n {
            seq![letter(j as nat)]
        } else {
            Seq::empty()
        }));
        assert(correct_explanations(choices, n) =~= (if j < n && choices[j].explanation.len() > 0 {
            seq![choices[j].explanation]
        } else {
            Seq::empty()
        }));
    }
}

/// Where one choice is correct, the answer is its letter, with its explanation where it has one.
pub proof fn law_the_answer_is_the_correct_choice(q: QuestionView, j: int)
    requires
        0 <= j < q.choices.len(),
        forall|i: int|
            0 <= i < q.choices.len() ==> ((#[trigger] q.choices[i]).is_correct <==> i == j),
    ensures
        q.choices[j].explanation.len() == 0 ==> answer_text(q) == "Answer: "@ + epub::escaped(
            letter(j as nat),
        ),
        q.choices[j].explanation.len() > 0 ==> answer_text(q) == "Answer: "@ + epub::escaped(
            letter(j as nat),
        ) + " - "@ + epub::escaped(q.choices[j].explanation),
{
    let n = q.choices.len();
    lemma_one_correct(q.choices, n, j);
    reveal_with_fuel(text::join_first, 2);
    reveal_strlit("Answer: ");
    reveal_strlit("Answer");
    reveal_strlit(": ");
    assert("Answer"@ + ": "@ =~= "Answer: "@);
    assert(text::join(correct_letters(q.choices, n), ", "@) =~= letter(j as nat));
    if q.choices[j].explanation.len() > 0 {
        assert(text::join(correct_explanations(q.choices, n), " "@)
            =~= q.choices[j].explanation);
    } else {
        assert(text::join(correct_explanations(q.choices, n), " "@) =~= Seq::<char>::empty());
    }
}

} // verus!
