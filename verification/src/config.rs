use vstd::prelude::*;
use crate::criterion::Criterion;
use crate::schema::declares;
use crate::schema::lemma_place_unique;
use crate::schema::place_of;
use crate::schema::Schema;
use crate::schema::SchemaView;
use crate::text::same_text;
use crate::text::string_of;
use crate::tokenizer::scalars_of;
use crate::tokenizer::StopWords;
use crate::types::SchemaAttr;

verus! {

/// The direction of a custom ranking rule.
#[derive(Clone, Copy, Debug, PartialEq, Eq, Structural)]
pub enum RankingOrdering {
    Asc,
    Dsc,
}

/// The keys that give access to an index.
#[derive(Clone, Debug, PartialEq, Eq)]
pub struct AccessToken {
    pub read_key: String,
    pub write_key: String,
    pub admin_key: String,
}

/// A custom ranking rule: the name of a ranked attribute and the direction.
/// Where the rules of the settings name an attribute more than once, the
/// first rule of that name counts.
#[derive(Clone, Debug, PartialEq, Eq)]
pub struct RankingRule {
    pub name: String,
    pub ordering: RankingOrdering,
}

/// The settings of an index.
#[derive(Clone, Debug, PartialEq, Eq)]
pub struct Config {
    pub stop_words: Option<Vec<String>>,
    pub ranking_order: Option<Vec<String>>,
    pub distinct_field: Option<String>,
    pub ranking_rules: Option<Vec<RankingRule>>,
    pub access_token: Option<AccessToken>,
}

/// The settings once new settings are taken over: each setting that the new
/// ones give replaces the old one.
pub open spec fn updated(old: Config, new: Config) -> Config {
    Config {
        stop_words: if new.stop_words is Some {
            new.stop_words
        } else {
            old.stop_words
        },
        ranking_order: if new.ranking_order is Some {
            new.ranking_order
        } else {
            old.ranking_order
        },
        distinct_field: if new.distinct_field is Some {
            new.distinct_field
        } else {
            old.distinct_field
        },
        ranking_rules: if new.ranking_rules is Some {
            new.ranking_rules
        } else {
            old.ranking_rules
        },
        access_token: if new.access_token is Some {
            new.access_token
        } else {
            old.access_token
        },
    }
}

/// Whether one of the keys of an access token is empty.
pub open spec fn lacks_key(token: AccessToken) -> bool {
    token.read_key@.len() == 0 || token.write_key@.len() == 0 || token.admin_key@.len() == 0
}

/// The settings with each empty setting unset: an empty list of stop words,
/// of ranking rules or of their order, an empty distinct field, and an access
/// token that lacks a key.
pub open spec fn normalized(config: Config) -> Config {
    Config {
        stop_words: match config.stop_words {
            Some(words) => if words@.len() == 0 {
                None
            } else {
                config.stop_words
            },
            None => None,
        },
        ranking_order: match config.ranking_order {
            Some(order) => if order@.len() == 0 {
                None
            } else {
                config.ranking_order
            },
            None => None,
        },
        distinct_field: match config.distinct_field {
            Some(field) => if field@.len() == 0 {
                None
            } else {
                config.distinct_field
            },
            None => None,
        },
        ranking_rules: match config.ranking_rules {
            Some(rules) => if rules@.len() == 0 {
                None
            } else {
                config.ranking_rules
            },
            None => None,
        },
        access_token: match config.access_token {
            Some(token) => if lacks_key(token) {
                None
            } else {
                config.access_token
            },
            None => None,
        },
    }
}

/// The settings that are saved when new settings arrive: the new ones where
/// none were saved, and else the saved ones updated with the new ones, empty
/// settings unset.
pub open spec fn saved_after(saved: Option<Config>, new: Config) -> Config {
    match saved {
        None => new,
        Some(old) => normalized(updated(old, new)),
    }
}

/// The set of the stop words of the settings.
pub open spec fn stop_word_set(words: Seq<String>) -> Set<Seq<char>>
    decreases words.len(),
{
    if words.len() == 0 {
        Set::empty()
    } else {
        stop_word_set(words.drop_last()).insert(words.last()@)
    }
}

/// The stop words that the settings give.
pub open spec fn stop_words_of(config: Config) -> Set<Seq<char>> {
    match config.stop_words {
        Some(words) => stop_word_set(words@),
        None => Set::empty(),
    }
}

/// The direction that the custom rules give a name: that of the first rule
/// with that name.
pub open spec fn rule_ordering(rules: Seq<RankingRule>, name: Seq<char>) -> Option<RankingOrdering>
    decreases rules.len(),
{
    if rules.len() == 0 {
        None
    } else if rules[0].name@ == name {
        Some(rules[0].ordering)
    } else {
        rule_ordering(rules.drop_first(), name)
    }
}

/// A rule written as the name of an attribute, a colon and `asc` or `dsc`.
pub open spec fn suffixed_rule(name: Seq<char>) -> Option<(Seq<char>, RankingOrdering)> {
    let n = name.len() as int;
    if n > 4 && name[n - 4] == ':' && name[n - 2] == 's' && name[n - 1] == 'c' && name[n - 3]
        == 'a' {
        Some((name.take(n - 4), RankingOrdering::Asc))
    } else if n > 4 && name[n - 4] == ':' && name[n - 2] == 's' && name[n - 1] == 'c' && name[n
        - 3] == 'd' {
        Some((name.take(n - 4), RankingOrdering::Dsc))
    } else {
        None
    }
}

/// The criterion that sorts by an attribute, where the schema declares the
/// attribute as ranked.
pub open spec fn sort_by(schema: SchemaView, attribute: Seq<char>, ordering: RankingOrdering) -> Option<
    Criterion,
> {
    if declares(schema.attrs, attribute) && schema.attrs[place_of(
        schema.attrs,
        attribute,
    )].props.ranked {
        Some(
            Criterion::SortByAttr {
                attribute: SchemaAttr(place_of(schema.attrs, attribute) as u16),
                ascending: ordering == RankingOrdering::Asc,
            },
        )
    } else {
        None
    }
}

/// The criterion that a rule's name stands for: one of the built-in
/// criteria, a custom rule of the settings, or an attribute with its
/// direction. A name that is none of these stands for nothing.
pub open spec fn criterion_of(schema: SchemaView, rules: Seq<RankingRule>, name: Seq<char>) -> Option<
    Criterion,
> {
    if name == "_sum_of_typos"@ {
        Some(Criterion::SumOfTypos)
    } else if name == "_number_of_words"@ {
        Some(Criterion::NumberOfWords)
    } else if name == "_word_proximity"@ {
        Some(Criterion::WordsProximity)
    } else if name == "_sum_of_words_attribute"@ {
        Some(Criterion::SumOfWordsAttribute)
    } else if name == "_sum_of_words_position"@ {
        Some(Criterion::SumOfWordsPosition)
    } else if name == "_exact"@ {
        Some(Criterion::Exact)
    } else {
        match rule_ordering(rules, name) {
            Some(ordering) => sort_by(schema, name, ordering),
            None => match suffixed_rule(name) {
                Some((attribute, ordering)) => sort_by(schema, attribute, ordering),
                None => None,
            },
        }
    }
}

/// The criteria that a list of rule names stands for, in its order.
pub open spec fn criteria_of(schema: SchemaView, rules: Seq<RankingRule>, order: Seq<String>) -> Seq<
    Criterion,
>
    decreases order.len(),
{
    if order.len() == 0 {
        Seq::empty()
    } else {
        let before = criteria_of(schema, rules, order.drop_last());
        match criterion_of(schema, rules, order.last()@) {
            Some(criterion) => before.push(criterion),
            None => before,
        }
    }
}

/// The criteria used where the settings give no order.
pub open spec fn default_pipeline() -> Seq<Criterion> {
    seq![
        Criterion::SumOfTypos,
        Criterion::NumberOfWords,
        Criterion::WordsProximity,
        Criterion::SumOfWordsAttribute,
        Criterion::SumOfWordsPosition,
        Criterion::Exact,
        Criterion::DocumentId,
    ]
}

/// The criteria by which the documents of an index are ranked: those of the
/// configured order, then the document identifier; the default ones where no
/// order is configured.
pub open spec fn pipeline_of(schema: SchemaView, config: Config) -> Seq<Criterion> {
    match config.ranking_order {
        Some(order) => criteria_of(
            schema,
            match config.ranking_rules {
                Some(rules) => rules@,
                None => Seq::empty(),
            },
            order@,
        ).push(Criterion::DocumentId),
        None => default_pipeline(),
    }
}

fn find_rule(rules: &Vec<RankingRule>, name: &str) -> (ordering: Option<RankingOrdering>)
    ensures
        ordering == rule_ordering(rules@, name@),
{
    let mut i: usize = 0;
    proof {
        assert(rules@.skip(0) =~= rules@);
    }
    while i < rules.len()
        invariant
            i <= rules.len(),
            rule_ordering(rules@, name@) == rule_ordering(rules@.skip(i as int), name@),
        decreases rules.len() - i,
    {
        proof {
            assert(rules@.skip(i as int).drop_first() =~= rules@.skip(i + 1));
            assert(rules@.skip(i as int)[0] == rules@[i as int]);
        }
        if same_text(rules[i].name.as_str(), name) {
            return Some(rules[i].ordering);
        }
        i = i + 1;
    }
    proof {
        assert(rules@.skip(i as int).len() == 0);
    }
    None
}

fn sort_by_attribute(schema: &Schema, attribute: &str, ordering: RankingOrdering) -> (criterion:
    Option<Criterion>)
    ensures
        criterion == sort_by(schema@, attribute@, ordering),
{
    let n = schema.len();
    match schema.attribute(attribute) {
        Some(attr) => {
            proof {
                lemma_place_unique(schema@.attrs, attr.0 as int);
            }
            if schema.props(attr).ranked {
                Some(
                    Criterion::SortByAttr {
                        attribute: attr,
                        ascending: match ordering {
                            RankingOrdering::Asc => true,
                            RankingOrdering::Dsc => false,
                        },
                    },
                )
            } else {
                None
            }
        },
        None => None,
    }
}

fn split_suffix(name: &str) -> (rule: Option<(String, RankingOrdering)>)
    ensures
        match rule {
            Some((attribute, ordering)) => suffixed_rule(name@) == Some((attribute@, ordering)),
            None => suffixed_rule(name@) is None,
        },
{
    let scalars = scalars_of(name);
    let n = scalars.len();
    if n > 4 && scalars[n - 4] == ':' && scalars[n - 2] == 's' && scalars[n - 1] == 'c' {
        let ordering = if scalars[n - 3] == 'a' {
            RankingOrdering::Asc
        } else if scalars[n - 3] == 'd' {
            RankingOrdering::Dsc
        } else {
            return None;
        };
        let mut prefix: Vec<char> = Vec::new();
        let mut i: usize = 0;
        while i < n - 4
            invariant
                i <= n - 4,
                n == scalars.len(),
                prefix@ == scalars@.take(i as int),
            decreases n - 4 - i,
        {
            prefix.push(scalars[i]);
            proof {
                assert(scalars@.take(i + 1) =~= scalars@.take(i as int).push(scalars@[i as int]));
            }
            i = i + 1;
        }
        Some((string_of(&prefix), ordering))
    } else {
        None
    }
}

/// The criterion that a rule's name stands for.
pub fn criterion_for(schema: &Schema, rules: &Vec<RankingRule>, name: &str) -> (criterion: Option<
    Criterion,
>)
    ensures
        criterion == criterion_of(schema@, rules@, name@),
{
    if same_text(name, "_sum_of_typos") {
        Some(Criterion::SumOfTypos)
    } else if same_text(name, "_number_of_words") {
        Some(Criterion::NumberOfWords)
    } else if same_text(name, "_word_proximity") {
        Some(Criterion::WordsProximity)
    } else if same_text(name, "_sum_of_words_attribute") {
        Some(Criterion::SumOfWordsAttribute)
    } else if same_text(name, "_sum_of_words_position") {
        Some(Criterion::SumOfWordsPosition)
    } else if same_text(name, "_exact") {
        Some(Criterion::Exact)
    } else {
        match find_rule(rules, name) {
            Some(ordering) => sort_by_attribute(schema, name, ordering),
            None => match split_suffix(name) {
                Some((attribute, ordering)) => sort_by_attribute(
                    schema,
                    attribute.as_str(),
                    ordering,
                ),
                None => None,
            },
        }
    }
}

impl Config {
    /// Settings that set nothing.
    pub open spec fn new_spec() -> Config {
        Config {
            stop_words: None,
            ranking_order: None,
            distinct_field: None,
            ranking_rules: None,
            access_token: None,
        }
    }

    /// Settings that set nothing.
    pub fn new() -> (config: Config)
        ensures
            config == Config::new_spec(),
    {
        Config {
            stop_words: None,
            ranking_order: None,
            distinct_field: None,
            ranking_rules: None,
            access_token: None,
        }
    }

    /// Takes over each setting that `new` gives.
    pub fn update_with(&mut self, new: Config)
        ensures
            *final(self) == updated(*old(self), new),
    {
        if new.stop_words.is_some() {
            self.stop_words = new.stop_words;
        }
        if new.ranking_order.is_some() {
            self.ranking_order = new.ranking_order;
        }
        if new.distinct_field.is_some() {
            self.distinct_field = new.distinct_field;
        }
        if new.ranking_rules.is_some() {
            self.ranking_rules = new.ranking_rules;
        }
        if new.access_token.is_some() {
            self.access_token = new.access_token;
        }
    }

    /// Unsets each setting that is empty.
    pub fn normalize(&mut self)
        ensures
            *final(self) == normalized(*old(self)),
    {
        let drop_stop_words = match &self.stop_words {
            Some(words) => words.len() == 0,
            None => false,
        };
        if drop_stop_words {
            self.stop_words = None;
        }
        let drop_order = match &self.ranking_order {
            Some(order) => order.len() == 0,
            None => false,
        };
        if drop_order {
            self.ranking_order = None;
        }
        let drop_field = match &self.distinct_field {
            Some(field) => field.as_str().is_empty(),
            None => false,
        };
        if drop_field {
            self.distinct_field = None;
        }
        let drop_rules = match &self.ranking_rules {
            Some(rules) => rules.len() == 0,
            None => false,
        };
        if drop_rules {
            self.ranking_rules = None;
        }
        let drop_token = match &self.access_token {
            Some(token) => token.read_key.as_str().is_empty() || token.write_key.as_str().is_empty()
                || token.admin_key.as_str().is_empty(),
            None => false,
        };
        if drop_token {
            self.access_token = None;
        }
    }

    /// The settings to save when new settings arrive for an index.
    pub fn merged(saved: Option<Config>, new: Config) -> (config: Config)
        ensures
            config == saved_after(saved, new),
    {
        match saved {
            None => new,
            Some(mut config) => {
                config.update_with(new);
                config.normalize();
                config
            },
        }
    }

    /// The stop words of the settings.
    pub fn stop_words(&self) -> (stop_words: StopWords)
        ensures
            stop_words@ == stop_words_of(*self),
    {
        let mut stop_words = StopWords::new();
        match &self.stop_words {
            Some(words) => {
                let mut i: usize = 0;
                while i < words.len()
                    invariant
                        i <= words.len(),
                        stop_words@ == stop_word_set(words@.take(i as int)),
                    decreases words.len() - i,
                {
                    proof {
                        assert(words@.take(i + 1).drop_last() =~= words@.take(i as int));
                    }
                    stop_words.insert(words[i].as_str());
                    i = i + 1;
                }
                proof {
                    assert(words@.take(i as int) =~= words@);
                }
            },
            None => {},
        }
        stop_words
    }

    /// The criteria by which the documents of an index are ranked.
    pub fn pipeline(&self, schema: &Schema) -> (pipeline: Vec<Criterion>)
        ensures
            pipeline@ == pipeline_of(schema@, *self),
    {
        match &self.ranking_order {
            Some(order) => {
                let no_rules: Vec<RankingRule> = Vec::new();
                let rules = match &self.ranking_rules {
                    Some(rules) => rules,
                    None => &no_rules,
                };
                let mut pipeline: Vec<Criterion> = Vec::new();
                let mut i: usize = 0;
                while i < order.len()
                    invariant
                        i <= order.len(),
                        pipeline@ == criteria_of(schema@, rules@, order@.take(i as int)),
                    decreases order.len() - i,
                {
                    proof {
                        assert(order@.take(i + 1).drop_last() =~= order@.take(i as int));
                    }
                    match criterion_for(schema, rules, order[i].as_str()) {
                        Some(criterion) => {
                            pipeline.push(criterion);
                        },
                        None => {},
                    }
                    i = i + 1;
                }
                proof {
                    assert(order@.take(i as int) =~= order@);
                }
                pipeline.push(Criterion::DocumentId);
                pipeline
            },
            None => {
                let mut pipeline: Vec<Criterion> = Vec::new();
                pipeline.push(Criterion::SumOfTypos);
                pipeline.push(Criterion::NumberOfWords);
                pipeline.push(Criterion::WordsProximity);
                pipeline.push(Criterion::SumOfWordsAttribute);
                pipeline.push(Criterion::SumOfWordsPosition);
                pipeline.push(Criterion::Exact);
                pipeline.push(Criterion::DocumentId);
                proof {
                    assert(pipeline@ =~= default_pipeline());
                }
                pipeline
            },
        }
    }
}

} // verus!
