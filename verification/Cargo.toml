[package]
name = "dynamo_store"
version = "0.1.0"
edition = "2021"
publish = false

[dependencies]
bcs = "*"
aws-sdk-dynamodb = "*"
aws-config = "*"
anyhow = "*"
pathdiff = "*"
