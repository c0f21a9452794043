use vstd::prelude::*;

verus! {

/// Feature extraction failure.
#[derive(Clone, Debug, PartialEq, Eq)]
pub struct FeatureError {
    message: String,
}

impl FeatureError {
    pub fn new(message: &str) -> (e: Self)
        ensures
            e.message_view() == message@,
    {
        FeatureError { message: message.to_owned() }
    }

    pub closed spec fn message_view(&self) -> Seq<char> {
        self.message@
    }

    pub fn message(&self) -> (m: &str)
        ensures
            m@ == self.message_view(),
    {
        self.message.as_str()
    }
}

/// Prediction failure.
#[derive(Clone, Debug, PartialEq, Eq)]
pub struct PredictError {
    message: String,
}

impl PredictError {
    pub fn new(message: &str) -> (e: Self)
        ensures
            e.message_view() == message@,
    {
        PredictError { message: message.to_owned() }
    }

    pub closed spec fn message_view(&self) -> Seq<char> {
        self.message@
    }

    pub fn message(&self) -> (m: &str)
        ensures
            m@ == self.message_view(),
    {
        self.message.as_str()
    }
}

/// Training failure.
#[derive(Clone, Debug, PartialEq, Eq)]
pub struct FitError {
    message: String,
}

impl FitError {
    pub fn new(message: &str) -> (e: Self)
        ensures
            e.message_view() == message@,
    {
        FitError { message: message.to_owned() }
    }

    pub closed spec fn message_view(&self) -> Seq<char> {
        self.message@
    }

    pub fn message(&self) -> (m: &str)
        ensures
            m@ == self.message_view(),
    {
        self.message.as_str()
    }
}

/// Decoding failure.
#[derive(Clone, Debug, PartialEq, Eq)]
pub struct DecodeError {
    message: String,
}

impl DecodeError {
    pub fn new(message: &str) -> (e: Self)
        ensures
            e.message_view() == message@,
    {
        DecodeError { message: message.to_owned() }
    }

    pub closed spec fn message_view(&self) -> Seq<char> {
        self.message@
    }

    pub fn message(&self) -> (m: &str)
        ensures
            m@ == self.message_view(),
    {
        self.message.as_str()
    }
}

/// Failure of one stage of a pipeline run.
#[derive(Debug)]
pub enum PipelineError {
    Feature(FeatureError),
    Predict(PredictError),
    Decode(DecodeError),
}

} // verus!
