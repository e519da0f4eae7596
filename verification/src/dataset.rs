//! The dataset walker: describes in-memory features to a sink, one after the other.
use vstd::prelude::*;
use crate::datasource::GeozeroDatasource;
use crate::error::GeozeroError;
use crate::event::{
    accepted, delivered, lemma_delivered_nothing, lemma_delivered_one, lemma_delivered_step,
    name_model, Event, PropertyValue, Walk,
};
use crate::geometry::Geometry;
use crate::processor::{lemma_call, walked, FeatureProcessor};
use crate::walker::{geometry_walk, process_geometry};

verus! {

/// One named property of a feature.
pub struct Property {
    pub name: String,
    pub value: PropertyValue,
}

/// A geometry with its properties.
pub struct Feature {
    pub geometry: Geometry,
    pub properties: Vec<Property>,
}

/// An ordered sequence of features with the metadata of the whole.
pub struct Dataset {
    pub name: Option<String>,
    pub srid: Option<i32>,
    pub features: Vec<Feature>,
}

/// The calls that report the given properties, in order.
pub open spec fn property_events(properties: Seq<Property>) -> Seq<Event> {
    Seq::new(
        properties.len(),
        |i: int| Event::Property(properties[i].name@, properties[i].value@),
    )
}

/// What the properties of a feature have to say: the properties between
/// their two brackets if there are any and the sink asks for them, and
/// nothing otherwise.
pub open spec fn properties_walk(properties: Seq<Property>, wanted: bool) -> Walk {
    if wanted && properties.len() > 0 {
        Walk::of(
            seq![Event::PropertiesBegin] + property_events(properties)
                + seq![Event::PropertiesEnd],
        )
    } else {
        Walk::of(Seq::empty())
    }
}

/// What the feature with the ordinal `index` has to say: between its two
/// brackets its properties and then its geometry, walked under the
/// dimensionality that the geometry declares.
pub open spec fn feature_walk(feature: Feature, index: nat, srid: Option<i32>, wanted: bool) -> Walk {
    Walk::of(seq![Event::FeatureBegin(index as u64)]).followed_by(
        properties_walk(feature.properties@, wanted).followed_by(
            geometry_walk(feature.geometry@, feature.geometry@.dimension(), srid).followed_by(
                Walk::of(seq![Event::FeatureEnd(index as u64)]),
            ),
        ),
    )
}

/// What the features from the ordinal `from` on have to say, and then the
/// closing bracket of the dataset.
pub open spec fn features_walk(
    features: Seq<Feature>,
    from: nat,
    srid: Option<i32>,
    wanted: bool,
) -> Walk
    decreases features.len() - from,
{
    if from >= features.len() {
        Walk::of(seq![Event::DatasetEnd])
    } else {
        feature_walk(features[from as int], from, srid, wanted).followed_by(
            features_walk(features, from + 1, srid, wanted),
        )
    }
}

impl Dataset {
    /// The name of the dataset as events carry it.
    pub open spec fn title(self) -> Option<Seq<char>> {
        match self.name {
            Some(name) => Some(name@),
            None => None,
        }
    }

    /// What the dataset has to say: its features in order between its two brackets.
    pub open spec fn walk(self, wanted: bool) -> Walk {
        Walk::of(seq![Event::DatasetBegin(self.title())]).followed_by(
            features_walk(self.features@, 0, self.srid, wanted),
        )
    }
}

fn emit_properties<P: FeatureProcessor>(properties: &Vec<Property>, processor: &mut P) -> (r: Result<
    (),
    GeozeroError,
>)
    requires
        old(processor).wf(),
        properties@.len() > 0,
    ensures
        walked(*old(processor), *final(processor), properties_walk(properties@, true), r),
{
    let ghost before = processor.calls();
    let ghost asks = processor.requests_properties();
    let ghost reported = property_events(properties@);
    let ghost opened = Seq::<Event>::empty().push(Event::PropertiesBegin);
    let ghost total = seq![Event::PropertiesBegin] + reported + seq![Event::PropertiesEnd];
    proof {
        assert(before =~= before + accepted(Seq::<Event>::empty()));
        assert(total =~= opened + reported + seq![Event::PropertiesEnd]);
    }
    let r = processor.properties_begin();
    proof {
        lemma_call(before, Seq::empty(), before, Event::PropertiesBegin, processor.calls(), r, total);
    }
    if r.is_err() {
        return r;
    }
    let mut i: usize = 0;
    proof {
        assert(opened + reported.take(0) =~= opened);
    }
    while i < properties.len()
        invariant
            i <= properties.len(),
            processor.wf(),
            processor.requests_properties() == asks,
            asks == old(processor).requests_properties(),
            before == old(processor).calls(),
            reported == property_events(properties@),
            opened == Seq::<Event>::empty().push(Event::PropertiesBegin),
            total == seq![Event::PropertiesBegin] + reported + seq![Event::PropertiesEnd],
            total =~= opened + reported + seq![Event::PropertiesEnd],
            processor.calls() == before + accepted(opened + reported.take(i as int)),
        decreases properties.len() - i,
    {
        let ghost done = opened + reported.take(i as int);
        let ghost mid = processor.calls();
        let r = processor.property(properties[i].name.as_str(), &properties[i].value);
        proof {
            assert(done.push(reported[i as int]) =~= opened + reported.take(i + 1));
            lemma_call(before, done, mid, reported[i as int], processor.calls(), r, total);
        }
        if r.is_err() {
            return r;
        }
        i += 1;
    }
    let ghost filled = opened + reported;
    let ghost mid = processor.calls();
    proof {
        assert(reported.take(i as int) =~= reported);
    }
    let r = processor.properties_end();
    proof {
        assert(filled.push(Event::PropertiesEnd) =~= total);
        lemma_call(before, filled, mid, Event::PropertiesEnd, processor.calls(), r, total);
    }
    r
}

fn emit_feature<P: FeatureProcessor>(
    feature: &Feature,
    index: u64,
    srid: Option<i32>,
    wanted: bool,
    processor: &mut P,
) -> (r: Result<(), GeozeroError>)
    requires
        old(processor).wf(),
    ensures
        walked(
            *old(processor),
            *final(processor),
            feature_walk(*feature, index as nat, srid, wanted),
            r,
        ),
{
    let ghost start = processor.calls();
    let ghost w1 = Walk::of(seq![Event::FeatureBegin(index)]);
    let ghost w2 = properties_walk(feature.properties@, wanted);
    let ghost w3 = geometry_walk(feature.geometry@, feature.geometry@.dimension(), srid);
    let ghost w4 = Walk::of(seq![Event::FeatureEnd(index)]);
    let ghost nothing = Walk::of(Seq::<Event>::empty());
    proof {
        lemma_delivered_nothing(start);
        assert(nothing.followed_by(w1.followed_by(w2.followed_by(w3.followed_by(w4))))
            == w1.followed_by(w2.followed_by(w3.followed_by(w4)))) by {
            assert(Seq::<Event>::empty() + w1.events =~= w1.events);
            assert(Seq::<Event>::empty() + w1.followed_by(
                w2.followed_by(w3.followed_by(w4)),
            ).events =~= w1.followed_by(w2.followed_by(w3.followed_by(w4))).events);
        }
    }
    let r = processor.feature_begin(index);
    proof {
        lemma_delivered_one(start, Event::FeatureBegin(index), r);
        lemma_delivered_step(
            start,
            nothing,
            start,
            w1,
            processor.calls(),
            r,
            w2.followed_by(w3.followed_by(w4)),
        );
    }
    if r.is_err() {
        return r;
    }
    let ghost d1 = nothing.followed_by(w1);
    let ghost c1 = processor.calls();
    let r = if wanted && feature.properties.len() > 0 {
        emit_properties(&feature.properties, processor)
    } else {
        proof {
            lemma_delivered_nothing(c1);
        }
        Ok(())
    };
    proof {
        lemma_delivered_step(start, d1, c1, w2, processor.calls(), r, w3.followed_by(w4));
    }
    if r.is_err() {
        return r;
    }
    let ghost d2 = d1.followed_by(w2);
    let ghost c2 = processor.calls();
    let r = process_geometry(&feature.geometry, feature.geometry.dims(), srid, processor);
    proof {
        lemma_delivered_step(start, d2, c2, w3, processor.calls(), r, w4);
    }
    if r.is_err() {
        return r;
    }
    let ghost d3 = d2.followed_by(w3);
    let ghost c3 = processor.calls();
    let r = processor.feature_end(index);
    proof {
        lemma_delivered_one(c3, Event::FeatureEnd(index), r);
        lemma_delivered_step(start, d3, c3, w4, processor.calls(), r, nothing);
        assert(w4.followed_by(nothing) == w4) by {
            assert(w4.events + Seq::<Event>::empty() =~= w4.events);
        }
        assert(d3.followed_by(w4).followed_by(nothing) == d3.followed_by(w4)) by {
            assert(d3.followed_by(w4).events + Seq::<Event>::empty() =~= d3.followed_by(
                w4,
            ).events);
        }
    }
    r
}

impl GeozeroDatasource for Dataset {
    open spec fn dataset_walk(&self, properties: bool) -> Walk {
        self.walk(properties)
    }

    fn process<P: FeatureProcessor>(&mut self, processor: &mut P) -> (r: Result<(), GeozeroError>)
        ensures
            *final(self) == *old(self),
    {
        let ghost start = processor.calls();
        let ghost asks = processor.requests_properties();
        let wanted = processor.wants_properties();
        let ghost total = self.walk(wanted);
        let ghost nothing = Walk::of(Seq::<Event>::empty());
        let name: Option<&str> = match &self.name {
            Some(name) => Some(name.as_str()),
            None => None,
        };
        let ghost w0 = Walk::of(seq![Event::DatasetBegin(name_model(name))]);
        proof {
            lemma_delivered_nothing(start);
            assert(nothing.followed_by(total) == total) by {
                assert(Seq::<Event>::empty() + total.events =~= total.events);
            }
        }
        let r = processor.dataset_begin(name);
        proof {
            lemma_delivered_one(start, Event::DatasetBegin(name_model(name)), r);
            lemma_delivered_step(
                start,
                nothing,
                start,
                w0,
                processor.calls(),
                r,
                features_walk(self.features@, 0, self.srid, wanted),
            );
        }
        if r.is_err() {
            return r;
        }
        let ghost mut done = nothing.followed_by(w0);
        let mut i: usize = 0;
        while i < self.features.len()
            invariant
                i <= self.features.len(),
                *self == *old(self),
                processor.wf(),
                processor.requests_properties() == asks,
                asks == old(processor).requests_properties(),
                start == old(processor).calls(),
                wanted == asks,
                total == self.walk(wanted),
                total == done.followed_by(
                    features_walk(self.features@, i as nat, self.srid, wanted),
                ),
                delivered(start, done, processor.calls(), Ok(())),
            decreases self.features.len() - i,
        {
            let ghost part = feature_walk(self.features@[i as int], i as nat, self.srid, wanted);
            let ghost rest = features_walk(self.features@, (i + 1) as nat, self.srid, wanted);
            let ghost mid = processor.calls();
            let r = emit_feature(&self.features[i], i as u64, self.srid, wanted, processor);
            proof {
                lemma_delivered_step(start, done, mid, part, processor.calls(), r, rest);
            }
            if r.is_err() {
                return r;
            }
            proof {
                done = done.followed_by(part);
            }
            i += 1;
        }
        let ghost mid = processor.calls();
        let r = processor.dataset_end();
        proof {
            let w9 = Walk::of(seq![Event::DatasetEnd]);
            lemma_delivered_one(mid, Event::DatasetEnd, r);
            lemma_delivered_step(start, done, mid, w9, processor.calls(), r, nothing);
            assert(w9.followed_by(nothing) == w9) by {
                assert(w9.events + Seq::<Event>::empty() =~= w9.events);
            }
            assert(done.followed_by(w9).followed_by(nothing) == done.followed_by(w9)) by {
                assert(done.followed_by(w9).events + Seq::<Event>::empty() =~= done.followed_by(
                    w9,
                ).events);
            }
        }
        r
    }
}

} // verus!
