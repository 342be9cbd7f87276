//! What a model can do.
use vstd::prelude::*;

use crate::text;

verus! {

/// What a model can do beyond text.
#[derive(Debug, Clone, Copy, PartialEq, Eq, Structural)]
pub struct ModelCaps {
    /// It can think before it answers.
    pub think: bool,
    /// It takes images.
    pub image: bool,
    /// It takes audio.
    pub audio: bool,
}

/// A model that takes text only.
pub open spec fn text_only() -> ModelCaps {
    ModelCaps { think: false, image: false, audio: false }
}

impl Default for ModelCaps {
    fn default() -> (caps: Self)
        ensures
            caps == text_only(),
    {
        ModelCaps { think: false, image: false, audio: false }
    }
}

/// Whether a list of names holds `name`.
pub open spec fn lists(names: Seq<String>, name: Seq<char>) -> bool {
    exists|i: int| 0 <= i < names.len() && (#[trigger] names[i])@ == name
}

/// Whether a list of names holds `name`.
fn has_name(names: &[String], name: &str) -> (b: bool)
    ensures
        b == lists(names@, name@),
{
    let mut i: usize = 0;
    while i < names.len()
        invariant
            i <= names@.len(),
            forall|k: int| 0 <= k < i ==> (#[trigger] names@[k])@ != name@,
        decreases names@.len() - i,
    {
        if text::same_text(names[i].as_str(), name) {
            return true;
        }
        i += 1;
    }
    false
}

/// The capabilities that a list of Ollama's names for them stands for.
pub open spec fn listed_caps(names: Seq<String>) -> ModelCaps {
    ModelCaps {
        think: lists(names, "thinking"@),
        image: lists(names, "vision"@),
        audio: lists(names, "audio"@),
    }
}

/// The capabilities in words.
pub open spec fn description(caps: ModelCaps) -> Seq<char> {
    let none = Seq::<char>::empty();
    "text"@ + (if caps.image {
        ", image"@
    } else {
        none
    }) + (if caps.audio {
        ", audio"@
    } else {
        none
    }) + (if caps.think {
        ", think"@
    } else {
        none
    })
}

impl ModelCaps {
    /// The capabilities that a list of Ollama's names for them stands for.
    pub fn from_ollama(caps: &[String]) -> (r: Self)
        ensures
            r == listed_caps(caps@),
    {
        ModelCaps {
            think: has_name(caps, "thinking"),
            image: has_name(caps, "vision"),
            audio: has_name(caps, "audio"),
        }
    }

    /// The capabilities in words.
    pub fn describe(&self) -> (s: String)
        ensures
            s@ == description(*self),
    {
        let mut s = "text".to_owned();
        if self.image {
            s.push_str(", image");
        }
        if self.audio {
            s.push_str(", audio");
        }
        if self.think {
            s.push_str(", think");
        }
        assert(s@ == description(*self));
        s
    }
}

/// The capabilities of a model of a known family, by the front of its name; text only for any
/// other.
pub open spec fn resolved(model: Seq<char>) -> ModelCaps {
    if text::begins_with(model, "gemma4"@) || text::begins_with(model, "gemma3n"@) {
        ModelCaps { think: true, image: true, audio: true }
    } else if text::begins_with(model, "gemma3"@) {
        ModelCaps { think: true, image: true, audio: false }
    } else if text::begins_with(model, "qwen3"@) || text::begins_with(model, "deepseek-r1"@)
        || text::begins_with(model, "phi4"@) {
        ModelCaps { think: true, image: false, audio: false }
    } else {
        text_only()
    }
}

/// The capabilities of a model, by the front of its name.
pub fn resolve(model: &str) -> (caps: ModelCaps)
    ensures
        caps == resolved(model@),
{
    if text::starts_with(model, "gemma4") || text::starts_with(model, "gemma3n") {
        ModelCaps { think: true, image: true, audio: true }
    } else if text::starts_with(model, "gemma3") {
        ModelCaps { think: true, image: true, audio: false }
    } else if text::starts_with(model, "qwen3") || text::starts_with(model, "deepseek-r1")
        || text::starts_with(model, "phi4") {
        ModelCaps { think: true, image: false, audio: false }
    } else {
        ModelCaps { think: false, image: false, audio: false }
    }
}

/// The capabilities of a model that can chat; none for one that declares its capabilities and
/// not `completion` among them.
pub open spec fn shown_caps(names: Seq<String>) -> Option<ModelCaps> {
    if names.len() > 0 && !lists(names, "completion"@) {
        None
    } else {
        Some(listed_caps(names))
    }
}

/// The capabilities of a model that can chat, from those that it declares. A model that declares
/// none can chat; one that declares some without `completion` cannot, and gives `None`.
pub fn chat_caps(declared: &[String]) -> (caps: Option<ModelCaps>)
    ensures
        caps == shown_caps(declared@),
{
    if declared.len() > 0 && !has_name(declared, "completion") {
        return None;
    }
    Some(ModelCaps::from_ollama(declared))
}

/// A model that the server holds, as it was listed: its name, its size in bytes, and what it can
/// do.
pub type ModelEntry = (String, u64, ModelCaps);

/// The models that can chat, in the order of the list: those for which `caps` has an entry.
pub open spec fn chat_entries(
    names: Seq<(String, u64)>,
    caps: Seq<Option<ModelCaps>>,
) -> Seq<(Seq<char>, u64, ModelCaps)>
    decreases names.len(),
{
    if names.len() == 0 {
        Seq::empty()
    } else {
        let rest = chat_entries(names.drop_last(), caps);
        let i = names.len() - 1;
        if i < caps.len() && caps[i] is Some {
            rest.push((names[i].0@, names[i].1, caps[i]->0))
        } else {
            rest
        }
    }
}

/// What a list of models holds.
pub open spec fn entry_views(models: Seq<ModelEntry>) -> Seq<(Seq<char>, u64, ModelCaps)> {
    models.map_values(|m: ModelEntry| (m.0@, m.1, m.2))
}

/// The models that can chat, with what they can do: of each listed model, the `caps` at its place
/// tell whether it can.
pub fn list_models(names: &Vec<(String, u64)>, caps: &Vec<Option<ModelCaps>>) -> (models: Vec<
    ModelEntry,
>)
    ensures
        entry_views(models@) == chat_entries(names@, caps@),
{
    let mut models: Vec<ModelEntry> = Vec::new();
    let mut i: usize = 0;
    assert(entry_views(models@) == chat_entries(names@.take(0), caps@));
    while i < names.len()
        invariant
            i <= names@.len(),
            entry_views(models@) == chat_entries(names@.take(i as int), caps@),
        decreases names@.len() - i,
    {
        assert(names@.take(i + 1).drop_last() == names@.take(i as int));
        if i < caps.len() {
            if let Some(c) = caps[i] {
                let ghost before = models@;
                models.push((names[i].0.clone(), names[i].1, c));
                assert(entry_views(models@) == entry_views(before).push(
                    (names@[i as int].0@, names@[i as int].1, c),
                ));
            }
        }
        i += 1;
    }
    assert(names@.take(i as int) == names@);
    models
}

/// Whether an entry of the result stands for the listed model at place `i`.
pub open spec fn entry_of(
    entry: (Seq<char>, u64, ModelCaps),
    names: Seq<(String, u64)>,
    caps: Seq<Option<ModelCaps>>,
    i: int,
) -> bool {
    &&& 0 <= i < names.len()
    &&& i < caps.len()
    &&& caps[i] == Some(entry.2)
    &&& names[i].0@ == entry.0
    &&& names[i].1 == entry.1
}

/// Whether an entry of the result stands for a listed model.
pub open spec fn is_listed(
    entry: (Seq<char>, u64, ModelCaps),
    names: Seq<(String, u64)>,
    caps: Seq<Option<ModelCaps>>,
) -> bool {
    exists|i: int| entry_of(entry, names, caps, i)
}

/// The models that can chat are listed ones, and no model without capabilities is among them; nor
/// is any that has them left out.
pub proof fn law_chat_models_are_the_capable_ones(
    names: Seq<(String, u64)>,
    caps: Seq<Option<ModelCaps>>,
)
    ensures
        forall|k: int|
            0 <= k < chat_entries(names, caps).len() ==> is_listed(
                #[trigger] chat_entries(names, caps)[k],
                names,
                caps,
            ),
        forall|i: int|
            0 <= i < names.len() && i < caps.len() && caps[i] is Some
                ==> chat_entries(names, caps).contains(
                (#[trigger] names[i].0@, names[i].1, caps[i]->0),
            ),
    decreases names.len(),
{
    if names.len() > 0 {
        let head = names.drop_last();
        let n = names.len() - 1;
        law_chat_models_are_the_capable_ones(head, caps);
        let rest = chat_entries(head, caps);
        let all = chat_entries(names, caps);
        assert forall|k: int| 0 <= k < all.len() implies is_listed(
            #[trigger] all[k],
            names,
            caps,
        ) by {
            if k < rest.len() {
                assert(is_listed(rest[k], head, caps));
                let i = choose|i: int| entry_of(rest[k], head, caps, i);
                assert(entry_of(all[k], names, caps, i));
            } else {
                assert(entry_of(all[k], names, caps, n));
            }
        }
        assert forall|i: int|
            0 <= i < names.len() && i < caps.len() && caps[i] is Some implies all.contains(
            (#[trigger] names[i].0@, names[i].1, caps[i]->0),
        ) by {
            let entry = (names[i].0@, names[i].1, caps[i]->0);
            if i < n {
                assert(head[i] == names[i]);
                assert(rest.contains((head[i].0@, head[i].1, caps[i]->0)));
                let k = choose|k: int| 0 <= k < rest.len() && rest[k] == entry;
                assert(all[k] == entry);
            } else {
                assert(all[all.len() - 1] == entry);
            }
        }
    }
}

/// What a model can do is told as a list of words with commas: text always, and then each of image,
/// audio and think that it can do.
pub proof fn law_description_lists_what_it_can(caps: ModelCaps)
    ensures
        ({
            let none = Seq::<Seq<char>>::empty();
            let words = seq!["text"@] + (if caps.image {
                seq!["image"@]
            } else {
                none
            }) + (if caps.audio {
                seq!["audio"@]
            } else {
                none
            }) + (if caps.think {
                seq!["think"@]
            } else {
                none
            });
            description(caps) == text::joined(words, ", "@)
        }),
{
    let none = Seq::<Seq<char>>::empty();
    let empty = Seq::<char>::empty();
    reveal_strlit("image");
    reveal_strlit("audio");
    reveal_strlit("think");
    reveal_strlit(", ");
    reveal_strlit(", image");
    reveal_strlit(", audio");
    reveal_strlit(", think");
    assert(", "@ + "image"@ == ", image"@);
    assert(", "@ + "audio"@ == ", audio"@);
    assert(", "@ + "think"@ == ", think"@);
    let w1 = seq!["text"@];
    let w2 = w1 + (if caps.image {
        seq!["image"@]
    } else {
        none
    });
    let w3 = w2 + (if caps.audio {
        seq!["audio"@]
    } else {
        none
    });
    let w4 = w3 + (if caps.think {
        seq!["think"@]
    } else {
        none
    });
    lemma_joined_more(w1, caps.image, "image"@, ", image"@);
    lemma_joined_more(w2, caps.audio, "audio"@, ", audio"@);
    lemma_joined_more(w3, caps.think, "think"@, ", think"@);
    assert(text::joined(w1, ", "@) == "text"@);
}

proof fn lemma_joined_more(words: Seq<Seq<char>>, more: bool, word: Seq<char>, tail: Seq<char>)
    requires
        words.len() > 0,
        ", "@ + word == tail,
    ensures
        text::joined(
            words + (if more {
                seq![word]
            } else {
                Seq::empty()
            }),
            ", "@,
        ) == text::joined(words, ", "@) + (if more {
            tail
        } else {
            Seq::empty()
        }),
{
    let j = text::joined(words, ", "@);
    if more {
        let all = words + seq![word];
        assert(all.drop_last() == words);
        assert(j + ", "@ + word == j + tail);
    } else {
        assert(words + Seq::<Seq<char>>::empty() == words);
        assert(j + Seq::<char>::empty() == j);
    }
}

proof fn lemma_front_chars(s: Seq<char>, front: Seq<char>, i: int)
    requires
        0 <= i < front.len(),
        i < s.len() ==> s[i] != front[i],
    ensures
        !text::begins_with(s, front),
{
    if text::begins_with(s, front) {
        assert(s.subrange(0, front.len() as int)[i] == front[i]);
    }
}

/// A model of the families `gemma4` and `gemma3n`, whatever follows that in its name, takes images and
/// audio and can think; one of the family `gemma3` takes images and can think.
pub proof fn law_gemma_models(rest: Seq<char>)
    ensures
        resolved("gemma4"@ + rest) == (ModelCaps { think: true, image: true, audio: true }),
        resolved("gemma3n"@ + rest) == (ModelCaps { think: true, image: true, audio: true }),
        rest.len() == 0 || rest[0] != 'n' ==> resolved("gemma3"@ + rest) == (ModelCaps {
            think: true,
            image: true,
            audio: false,
        }),
{
    reveal_strlit("gemma4");
    reveal_strlit("gemma3n");
    reveal_strlit("gemma3");
    assert(text::begins_with("gemma4"@ + rest, "gemma4"@)) by {
        text::law_parts_of_text("gemma4"@, "gemma4"@, Seq::empty(), rest);
    }
    assert(text::begins_with("gemma3n"@ + rest, "gemma3n"@)) by {
        text::law_parts_of_text("gemma3n"@, "gemma3n"@, Seq::empty(), rest);
    }
    assert(text::begins_with("gemma3"@ + rest, "gemma3"@)) by {
        text::law_parts_of_text("gemma3"@, "gemma3"@, Seq::empty(), rest);
    }
    assert(!text::begins_with("gemma3"@ + rest, "gemma4"@)) by {
        lemma_front_chars("gemma3"@ + rest, "gemma4"@, 5);
    }
    if rest.len() == 0 || rest[0] != 'n' {
        assert(!text::begins_with("gemma3"@ + rest, "gemma3n"@)) by {
            lemma_front_chars("gemma3"@ + rest, "gemma3n"@, 6);
        }
    }
}

/// A model of the families `qwen3`, `deepseek-r1` and `phi4`, whatever follows that in its name, can
/// think, and takes neither images nor audio.
pub proof fn law_thinking_models(rest: Seq<char>)
    ensures
        resolved("qwen3"@ + rest) == (ModelCaps { think: true, image: false, audio: false }),
        resolved("deepseek-r1"@ + rest) == (ModelCaps { think: true, image: false, audio: false }),
        resolved("phi4"@ + rest) == (ModelCaps { think: true, image: false, audio: false }),
{
    reveal_strlit("gemma4");
    reveal_strlit("gemma3n");
    reveal_strlit("gemma3");
    reveal_strlit("qwen3");
    reveal_strlit("deepseek-r1");
    reveal_strlit("phi4");
    assert(text::begins_with("qwen3"@ + rest, "qwen3"@)) by {
        text::law_parts_of_text("qwen3"@, "qwen3"@, Seq::empty(), rest);
    }
    assert(text::begins_with("deepseek-r1"@ + rest, "deepseek-r1"@)) by {
        text::law_parts_of_text("deepseek-r1"@, "deepseek-r1"@, Seq::empty(), rest);
    }
    assert(text::begins_with("phi4"@ + rest, "phi4"@)) by {
        text::law_parts_of_text("phi4"@, "phi4"@, Seq::empty(), rest);
    }
    assert(!text::begins_with("qwen3"@ + rest, "gemma4"@)) by {
        lemma_front_chars("qwen3"@ + rest, "gemma4"@, 0);
    }
    assert(!text::begins_with("qwen3"@ + rest, "gemma3n"@)) by {
        lemma_front_chars("qwen3"@ + rest, "gemma3n"@, 0);
    }
    assert(!text::begins_with("qwen3"@ + rest, "gemma3"@)) by {
        lemma_front_chars("qwen3"@ + rest, "gemma3"@, 0);
    }
    assert(!text::begins_with("deepseek-r1"@ + rest, "gemma4"@)) by {
        lemma_front_chars("deepseek-r1"@ + rest, "gemma4"@, 0);
    }
    assert(!text::begins_with("deepseek-r1"@ + rest, "gemma3n"@)) by {
        lemma_front_chars("deepseek-r1"@ + rest, "gemma3n"@, 0);
    }
    assert(!text::begins_with("deepseek-r1"@ + rest, "gemma3"@)) by {
        lemma_front_chars("deepseek-r1"@ + rest, "gemma3"@, 0);
    }
    assert(!text::begins_with("phi4"@ + rest, "gemma4"@)) by {
        lemma_front_chars("phi4"@ + rest, "gemma4"@, 0);
    }
    assert(!text::begins_with("phi4"@ + rest, "gemma3n"@)) by {
        lemma_front_chars("phi4"@ + rest, "gemma3n"@, 0);
    }
    assert(!text::begins_with("phi4"@ + rest, "gemma3"@)) by {
        lemma_front_chars("phi4"@ + rest, "gemma3"@, 0);
    }
}

/// A model whose name begins otherwise takes text only; and what takes audio takes images, and what
/// takes images can think.
pub proof fn law_other_models(name: Seq<char>)
    ensures
        name.len() == 0 || (name[0] != 'g' && name[0] != 'q' && name[0] != 'd' && name[0] != 'p')
            ==> resolved(name) == (ModelCaps { think: false, image: false, audio: false }),
        name.len() > 0 && name[0] == 'g' && (name.len() < 6 || (name[5] != '3' && name[5] != '4'))
            ==> resolved(name) == (ModelCaps { think: false, image: false, audio: false }),
        name.len() > 0 && name[0] == 'q' && (name.len() < 5 || name[4] != '3') ==> resolved(name)
            == (ModelCaps { think: false, image: false, audio: false }),
        name.len() > 0 && name[0] == 'd' && (name.len() < 11 || name[10] != '1') ==> resolved(name)
            == (ModelCaps { think: false, image: false, audio: false }),
        name.len() > 0 && name[0] == 'p' && (name.len() < 4 || name[3] != '4') ==> resolved(name)
            == (ModelCaps { think: false, image: false, audio: false }),
        resolved(name).audio ==> resolved(name).image,
        resolved(name).image ==> resolved(name).think,
{
    reveal_strlit("gemma4");
    reveal_strlit("gemma3n");
    reveal_strlit("gemma3");
    reveal_strlit("qwen3");
    reveal_strlit("deepseek-r1");
    reveal_strlit("phi4");
    if 0 >= name.len() || name[0] != "gemma4"@[0] {
        lemma_front_chars(name, "gemma4"@, 0);
    }
    if 5 >= name.len() || name[5] != "gemma4"@[5] {
        lemma_front_chars(name, "gemma4"@, 5);
    }
    if 0 >= name.len() || name[0] != "gemma3n"@[0] {
        lemma_front_chars(name, "gemma3n"@, 0);
    }
    if 5 >= name.len() || name[5] != "gemma3n"@[5] {
        lemma_front_chars(name, "gemma3n"@, 5);
    }
    if 0 >= name.len() || name[0] != "gemma3"@[0] {
        lemma_front_chars(name, "gemma3"@, 0);
    }
    if 5 >= name.len() || name[5] != "gemma3"@[5] {
        lemma_front_chars(name, "gemma3"@, 5);
    }
    if 0 >= name.len() || name[0] != "qwen3"@[0] {
        lemma_front_chars(name, "qwen3"@, 0);
    }
    if 4 >= name.len() || name[4] != "qwen3"@[4] {
        lemma_front_chars(name, "qwen3"@, 4);
    }
    if 0 >= name.len() || name[0] != "deepseek-r1"@[0] {
        lemma_front_chars(name, "deepseek-r1"@, 0);
    }
    if 10 >= name.len() || name[10] != "deepseek-r1"@[10] {
        lemma_front_chars(name, "deepseek-r1"@, 10);
    }
    if 0 >= name.len() || name[0] != "phi4"@[0] {
        lemma_front_chars(name, "phi4"@, 0);
    }
    if 3 >= name.len() || name[3] != "phi4"@[3] {
        lemma_front_chars(name, "phi4"@, 3);
    }
}

/// A model that declares nothing can chat and takes text only; one that declares `completion`, wherever
/// in the list, can chat; one that declares something without it cannot. What it can do beyond that is
/// what it declares under Ollama's names, wherever in the list they stand.
pub proof fn law_declared_capabilities(a: Seq<String>, name: String, b: Seq<String>)
    ensures
        shown_caps(Seq::empty()) == Some(ModelCaps { think: false, image: false, audio: false }),
        name@ == "completion"@ ==> shown_caps(a + seq![name] + b) is Some,
        (forall|i: int| 0 <= i < a.len() ==> (#[trigger] a[i])@ != "completion"@) && a.len() > 0
            ==> shown_caps(a) is None,
        name@ == "thinking"@ ==> listed_caps(a + seq![name] + b).think,
        name@ == "vision"@ ==> listed_caps(a + seq![name] + b).image,
        name@ == "audio"@ ==> listed_caps(a + seq![name] + b).audio,
        (forall|i: int| 0 <= i < a.len() ==> (#[trigger] a[i])@ != "thinking"@) ==> !listed_caps(
            a,
        ).think,
        (forall|i: int| 0 <= i < a.len() ==> (#[trigger] a[i])@ != "vision"@) ==> !listed_caps(
            a,
        ).image,
        (forall|i: int| 0 <= i < a.len() ==> (#[trigger] a[i])@ != "audio"@) ==> !listed_caps(
            a,
        ).audio,
        shown_caps(a) is Some ==> shown_caps(a) == Some(listed_caps(a)),
{
    let all = a + seq![name] + b;
    assert(all[a.len() as int] == name);
}

/// The list of models that can chat keeps the order of the models, has each once, and grows with each
/// model that can chat by that one, and with no other.
pub proof fn law_chat_models_in_order(
    names: Seq<(String, u64)>,
    caps: Seq<Option<ModelCaps>>,
    name: String,
    size: u64,
    cap: Option<ModelCaps>,
)
    requires
        names.len() == caps.len(),
    ensures
        chat_entries(names.push((name, size)), caps.push(cap)) == (match cap {
            Some(c) => chat_entries(names, caps).push((name@, size, c)),
            None => chat_entries(names, caps),
        }),
        chat_entries(Seq::empty(), caps).len() == 0,
{
    let all = names.push((name, size));
    assert(all.drop_last() == names);
    lemma_entries_prefix(names, caps, cap);
}

proof fn lemma_entries_prefix(
    names: Seq<(String, u64)>,
    caps: Seq<Option<ModelCaps>>,
    cap: Option<ModelCaps>,
)
    requires
        names.len() <= caps.len(),
    ensures
        chat_entries(names, caps.push(cap)) == chat_entries(names, caps),
    decreases names.len(),
{
    if names.len() > 0 {
        lemma_entries_prefix(names.drop_last(), caps, cap);
    }
}

} // verus!
