//! Words, tile feedback and the state machine of one game.

use crate::GUESSES_N;
use vstd::prelude::*;

verus! {

/// Phase of a single game.
#[derive(Copy, Clone, PartialEq, Eq, Debug, Structural)]
pub enum GameState {
    Active,
    Win,
    Lose,
}

/// Outcome of one letter position of a guess.
#[derive(Copy, Clone, PartialEq, Eq, Debug, Structural)]
pub enum TileColor {
    /// The guess has the secret's letter at this position.
    Green,
    /// The letter differs here, but the secret holds it somewhere.
    Yellow,
    /// The secret does not hold the letter.
    Grey,
}

/// Why a text and an index do not make a word.
#[derive(Copy, Clone, PartialEq, Eq, Debug, Structural)]
pub enum WordError {
    /// The text is not made of exactly five ASCII letters.
    InvalidWord,
    /// The index lies beyond the vocabulary capacity.
    IndexOutOfRange,
}

/// `c` is one of `a` to `z`.
pub open spec fn is_lowercase_letter(c: char) -> bool {
    'a' <= c <= 'z'
}

/// `c` is an ASCII letter of either case.
pub open spec fn is_letter(c: char) -> bool {
    'a' <= c <= 'z' || 'A' <= c <= 'Z'
}

/// The lower-case form of an ASCII letter; any other character is left as it is.
pub open spec fn lowercase(c: char) -> char {
    if 'A' <= c <= 'Z' {
        (c as int + 32) as char
    } else {
        c
    }
}

/// Position of a letter in the alphabet, counted from `a`.
pub fn get_alphabet_index(c: char) -> (index: usize)
    requires
        'a' <= c,
    ensures
        index == alphabet_position(c),
{
    c as usize - 'a' as usize
}

fn is_ascii_letter(c: char) -> (r: bool)
    ensures
        r == is_letter(c),
{
    ('a' <= c && c <= 'z') || ('A' <= c && c <= 'Z')
}

fn to_lowercase(c: char) -> (r: char)
    ensures
        r == lowercase(c),
{
    if 'A' <= c && c <= 'Z' {
        ((c as u8) + 32) as char
    } else {
        c
    }
}

/// The set of letters that occur in a word, one flag per letter of the alphabet.
#[derive(Eq, Hash, Debug, Copy, Clone)]
pub struct LetterContainer {
    bool_array: [bool; 26],
}

impl View for LetterContainer {
    type V = Set<char>;

    /// The lower-case letters whose flag is set.
    closed spec fn view(&self) -> Set<char> {
        Set::new(|c: char| is_lowercase_letter(c) && self.bool_array@[alphabet_position(c)])
    }
}

/// Distance of `c` from the letter `a`.
pub open spec fn alphabet_position(c: char) -> int {
    c as int - 'a' as int
}

/// The lower-case forms of the ASCII letters that occur in `text`.
pub open spec fn letters_of(text: Seq<char>) -> Set<char> {
    Set::new(
        |c: char|
            exists|i: int|
                0 <= i < text.len() && is_letter(#[trigger] text[i]) && lowercase(text[i]) == c,
    )
}

impl LetterContainer {
    /// Collects the letters of `word`, without regard to case. Characters that
    /// are no ASCII letters leave no trace.
    pub fn new(word: &str) -> (letters: LetterContainer)
        ensures
            letters@ == letters_of(word@),
    {
        let mut bool_array: [bool; 26] = [false; 26];
        let n: usize = word.unicode_len();
        let mut i: usize = 0;
        while i < n
            invariant
                i <= n,
                n == word@.len(),
                forall|k: int|
                    0 <= k < 26 ==> (#[trigger] bool_array@[k] <==> exists|j: int|
                        0 <= j < i && is_letter(#[trigger] word@[j]) && alphabet_position(
                            lowercase(word@[j]),
                        ) == k),
            decreases n - i,
        {
            let c: char = word.get_char(i);
            if is_ascii_letter(c) {
                let k: usize = get_alphabet_index(to_lowercase(c));
                bool_array[k] = true;
            }
            i += 1;
        }
        let letters = LetterContainer { bool_array };
        letters
    }

    /// Whether the letter `c` is in the set.
    pub fn contains_char(&self, c: char) -> (found: bool)
        ensures
            found == self@.contains(c),
    {
        if 'a' <= c && c <= 'z' {
            self.bool_array[get_alphabet_index(c)]
        } else {
            false
        }
    }
}

impl PartialEq for LetterContainer {
    fn eq(&self, other: &LetterContainer) -> (equal: bool) {
        let mut i: usize = 0;
        while i < 26
            invariant
                i <= 26,
                forall|j: int| 0 <= j < i ==> self.bool_array[j] == other.bool_array[j],
            decreases 26 - i,
        {
            if self.bool_array[i] != other.bool_array[i] {
                return false;
            }
            i += 1;
        }
        assert(self.bool_array =~= other.bool_array);
        true
    }
}

impl vstd::std_specs::cmp::PartialEqSpecImpl for LetterContainer {
    open spec fn obeys_eq_spec() -> bool {
        true
    }

    open spec fn eq_spec(&self, other: &LetterContainer) -> bool {
        *self == *other
    }
}

/// What a word is: its five lower-case letters and its place in the vocabulary.
pub struct WordView {
    pub text: Seq<char>,
    pub index: int,
}

/// Five lower-case letters and an index within the vocabulary capacity.
pub open spec fn valid_word(word: WordView) -> bool {
    &&& word.text.len() == 5
    &&& forall|i: int| 0 <= i < 5 ==> is_lowercase_letter(#[trigger] word.text[i])
    &&& 0 <= word.index <= GUESSES_N
}

/// Exactly five characters, each an ASCII letter.
pub open spec fn valid_text(text: Seq<char>) -> bool {
    &&& text.len() == 5
    &&& forall|i: int| 0 <= i < 5 ==> is_letter(#[trigger] text[i])
}

/// `text` with each character in lower case.
pub open spec fn lowered(text: Seq<char>) -> Seq<char> {
    Seq::new(text.len(), |i: int| lowercase(text[i]))
}

/// A word of the vocabulary. Every value of this type is valid: its letters
/// are lower case, its letter set is that of its text, and its index is
/// within the capacity.
#[derive(Eq, Hash, Debug, Copy, Clone)]
pub struct Word {
    chars: [char; 5],
    letters: LetterContainer,
    index: usize,
}

impl View for Word {
    type V = WordView;

    closed spec fn view(&self) -> WordView {
        WordView { text: self.chars@, index: self.index as int }
    }
}

impl Word {
    #[verifier::type_invariant]
    spec fn wf(&self) -> bool {
        &&& valid_word(self@)
        &&& self.letters@ == self.chars@.to_set()
    }

    /// Makes the word with the letters of `word`, in lower case, at `index`.
    /// The text is examined first: a text that is not five ASCII letters is
    /// refused whatever the index.
    pub fn new(word: &str, index: usize) -> (made: Result<Word, WordError>)
        ensures
            match made {
                Ok(w) => {
                    &&& valid_text(word@)
                    &&& index <= GUESSES_N
                    &&& w@.text == lowered(word@)
                    &&& w@.index == index
                    &&& valid_word(w@)
                },
                Err(WordError::InvalidWord) => !valid_text(word@),
                Err(WordError::IndexOutOfRange) => valid_text(word@) && index > GUESSES_N,
            },
    {
        if word.unicode_len() != 5 {
            return Err(WordError::InvalidWord);
        }
        let mut chars: [char; 5] = ['a'; 5];
        let mut i: usize = 0;
        while i < 5
            invariant
                i <= 5,
                word@.len() == 5,
                forall|j: int| 0 <= j < i ==> is_letter(#[trigger] word@[j]),
                forall|j: int| 0 <= j < i ==> #[trigger] chars@[j] == lowercase(word@[j]),
            decreases 5 - i,
        {
            let c: char = word.get_char(i);
            if !is_ascii_letter(c) {
                return Err(WordError::InvalidWord);
            }
            chars[i] = to_lowercase(c);
            i += 1;
        }
        if index > GUESSES_N {
            return Err(WordError::IndexOutOfRange);
        }
        let letters = LetterContainer::new(word);
        proof {
            assert forall|c: char| letters@.contains(c) <==> chars@.to_set().contains(c) by {
                if letters@.contains(c) {
                    let j = choose|j: int|
                        0 <= j < word@.len() && is_letter(#[trigger] word@[j]) && lowercase(
                            word@[j],
                        ) == c;
                    assert(chars@[j] == c);
                }
            }
            assert(letters@ =~= chars@.to_set());
        }
        Ok(Word { chars, letters, index })
    }

    /// The letter at position `i`.
    pub fn char_at(&self, i: usize) -> (c: char)
        requires
            i < 5,
        ensures
            c == self@.text[i as int],
            valid_word(self@),
    {
        proof {
            use_type_invariant(self);
        }
        self.chars[i]
    }

    /// The word's place in the vocabulary.
    pub fn index(&self) -> (index: usize)
        ensures
            index == self@.index,
            valid_word(self@),
    {
        proof {
            use_type_invariant(self);
        }
        self.index
    }

    /// The set of the word's letters.
    pub fn letters(&self) -> (letters: LetterContainer)
        ensures
            letters@ == self@.text.to_set(),
            valid_word(self@),
    {
        proof {
            use_type_invariant(self);
        }
        self.letters
    }

    /// Whether the letter `c` occurs anywhere in the word.
    pub fn has_letter(&self, c: char) -> (found: bool)
        ensures
            found == self@.text.contains(c),
    {
        proof {
            use_type_invariant(self);
        }
        self.letters.contains_char(c)
    }
}

impl PartialEq for Word {
    /// Words are equal when they have the same letters and the same index.
    fn eq(&self, other: &Word) -> (equal: bool) {
        let mut i: usize = 0;
        while i < 5
            invariant
                i <= 5,
                forall|j: int| 0 <= j < i ==> self.chars[j] == other.chars[j],
            decreases 5 - i,
        {
            if self.chars[i] != other.chars[i] {
                return false;
            }
            i += 1;
        }
        assert(self.chars@ =~= other.chars@);
        self.index == other.index
    }
}

impl vstd::std_specs::cmp::PartialEqSpecImpl for Word {
    open spec fn obeys_eq_spec() -> bool {
        true
    }

    open spec fn eq_spec(&self, other: &Word) -> bool {
        self@ == other@
    }
}

/// The colour of position `i` when `guess` is played against `secret`: green
/// where the letters agree; otherwise yellow where the secret holds the
/// guessed letter anywhere, however often it was already matched; else grey.
pub open spec fn tile(secret: WordView, guess: WordView, i: int) -> TileColor {
    if secret.text[i] == guess.text[i] {
        TileColor::Green
    } else if secret.text.contains(guess.text[i]) {
        TileColor::Yellow
    } else {
        TileColor::Grey
    }
}

/// The five tiles of `guess` played against `secret`.
pub open spec fn coloring(secret: WordView, guess: WordView) -> Seq<TileColor> {
    Seq::new(5, |i: int| tile(secret, guess, i))
}

/// A word played against itself is green at every position.
pub proof fn lemma_coloring_of_same_word(word: WordView)
    ensures
        coloring(word, word) == Seq::new(5, |i: int| TileColor::Green),
{
}

/// A guess that shares no letter with the secret is grey at every position.
pub proof fn lemma_coloring_without_shared_letter(secret: WordView, guess: WordView)
    requires
        valid_word(secret),
        valid_word(guess),
        secret.text.to_set().disjoint(guess.text.to_set()),
    ensures
        coloring(secret, guess) == Seq::new(5, |i: int| TileColor::Grey),
{
    assert forall|i: int| 0 <= i < 5 implies tile(secret, guess, i) == TileColor::Grey by {
        assert(guess.text.to_set().contains(guess.text[i]));
    }
}

/// Compares a guess with the secret, tile by tile.
pub fn get_coloring(secret_word: &Word, guess_word: &Word) -> (tiles: [TileColor; 5])
    ensures
        tiles@ == coloring(secret_word@, guess_word@),
        secret_word@.text == guess_word@.text ==> tiles@ == Seq::new(5, |i: int| TileColor::Green),
        secret_word@.text.to_set().disjoint(guess_word@.text.to_set()) ==> tiles@ == Seq::new(
            5,
            |i: int| TileColor::Grey,
        ),
{
    let mut tiles: [TileColor; 5] = [TileColor::Grey; 5];
    let mut i: usize = 0;
    while i < 5
        invariant
            i <= 5,
            forall|j: int| 0 <= j < i ==> #[trigger] tiles@[j] == tile(secret_word@, guess_word@, j),
        decreases 5 - i,
    {
        let secret_c: char = secret_word.char_at(i);
        let guess_c: char = guess_word.char_at(i);
        if secret_c == guess_c {
            tiles[i] = TileColor::Green;
        } else if secret_word.has_letter(guess_c) {
            tiles[i] = TileColor::Yellow;
        } else {
            tiles[i] = TileColor::Grey;
        }
        i += 1;
    }
    proof {
        let secret = secret_word@;
        let guess = guess_word@;
        if secret.text.to_set().disjoint(guess.text.to_set()) {
            use_type_invariant(secret_word);
            use_type_invariant(guess_word);
            lemma_coloring_without_shared_letter(secret, guess);
        }
    }
    tiles
}

/// Number of guesses that a game allows.
pub const MAX_ATTEMPTS: u8 = 6;

/// The phase of a game after a guess, when `attempts` guesses were made before
/// it: won if the guess is the hidden word, lost if it was the last guess
/// allowed, else still active.
pub open spec fn state_after_guess(hidden: WordView, attempts: int, guess: WordView) -> GameState {
    if guess == hidden {
        GameState::Win
    } else if attempts + 1 == MAX_ATTEMPTS {
        GameState::Lose
    } else {
        GameState::Active
    }
}

/// One game against a hidden word.
pub struct Game<'a> {
    pub state: GameState,
    pub attempts: u8,
    pub hidden_word: &'a Word,
}

impl<'a> Game<'a> {
    /// The word to be found.
    pub open spec fn hidden(&self) -> WordView {
        self.hidden_word@
    }

    /// A guess can be taken: the game is active and guesses are left.
    pub open spec fn accepts_guess(&self) -> bool {
        self.state == GameState::Active && self.attempts < MAX_ATTEMPTS
    }

    /// Starts a game against `hidden_word`.
    pub fn new(hidden_word: &'a Word) -> (game: Game<'a>)
        ensures
            game.state == GameState::Active,
            game.attempts == 0,
            game.hidden() == hidden_word@,
    {
        Game { state: GameState::Active, attempts: 0, hidden_word }
    }

    /// Plays `guess`: counts it, moves the game to its next phase and returns
    /// the tiles of the guess against the hidden word.
    pub fn submit_guess(&mut self, guess: &Word) -> (tiles: [TileColor; 5])
        requires
            old(self).accepts_guess(),
        ensures
            final(self).attempts == old(self).attempts + 1,
            final(self).state == state_after_guess(
                old(self).hidden(),
                old(self).attempts as int,
                guess@,
            ),
            final(self).hidden() == old(self).hidden(),
            tiles@ == coloring(old(self).hidden(), guess@),
    {
        self.check_guess(guess);
        get_coloring(self.hidden_word, guess)
    }

    fn check_guess(&mut self, guess: &Word)
        requires
            old(self).accepts_guess(),
        ensures
            final(self).attempts == old(self).attempts + 1,
            final(self).state == state_after_guess(
                old(self).hidden(),
                old(self).attempts as int,
                guess@,
            ),
            final(self).hidden() == old(self).hidden(),
    {
        self.attempts += 1;
        if guess == self.hidden_word {
            self.state = GameState::Win;
        } else if self.attempts == MAX_ATTEMPTS {
            self.state = GameState::Lose;
        }
    }
}

} // verus!
